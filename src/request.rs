//! Requests and the parsing of a request's text.
use vstd::prelude::*;

use crate::headers::{header_block, text_after_block, Headers};
use crate::method::{method_of, Method};
use crate::path::{path_of, Path};
use crate::text::{chars_of, lemma_split_nonempty, lemma_split_prefix, piece_end, split, substring};

verus! {

/// The most bytes of a request that a server reads; the request line,
/// headers and body all count.
pub const MAX_REQUEST_BYTES: usize = 4000;

/// The error of a request line with no space, so no target.
pub const NO_PATH: &'static str = "First line doesn't have a path";

/// The error of a request whose header block does not parse.
pub const BAD_HEADERS: &'static str = "Failed parsing headers";

/// An HTTP request.
pub struct Request {
    pub method: Method,
    pub path: Path,
    pub headers: Headers,
    pub body: String,
}

/// The lines of a request's text.
pub open spec fn request_lines(s: Seq<char>) -> Seq<Seq<char>> {
    split(s, '\n')
}

/// The space-separated tokens of a request's first line.
pub open spec fn request_line_tokens(s: Seq<char>) -> Seq<Seq<char>> {
    split(request_lines(s)[0], ' ')
}

/// What parsing the text `s` gives: the method, the target, the headers
/// and the body of the request, or the error.
pub open spec fn request_of(s: Seq<char>) -> Result<
    (Method, (Seq<char>, Option<Seq<char>>), Seq<(Seq<char>, Seq<char>)>, Seq<char>),
    &'static str,
> {
    let tokens = request_line_tokens(s);
    let rest = request_lines(s).drop_first();
    if tokens.len() < 2 {
        Err(NO_PATH)
    } else {
        match header_block(rest) {
            Ok(h) => Ok((method_of(tokens[0]), path_of(tokens[1]), h, text_after_block(rest))),
            Err(_) => Err(BAD_HEADERS),
        }
    }
}

/// A request whose method token is none of the five method names parses
/// exactly as the same request with `GET` in its place.
pub proof fn lemma_unknown_method_is_get(token: Seq<char>, rest: Seq<char>)
    requires
        forall|j: int| 0 <= j < token.len() ==> token[j] != ' ' && token[j] != '\n',
        token != "GET"@ && token != "POST"@ && token != "PUT"@ && token != "DELETE"@ && token
            != "PATCH"@,
        rest.len() > 0 && rest[0] == ' ',
    ensures
        request_of(token + rest) == request_of("GET"@ + rest),
{
    reveal_strlit("GET");
    reveal_strlit("POST");
    reveal_strlit("PUT");
    reveal_strlit("DELETE");
    reveal_strlit("PATCH");
    let get = "GET"@;
    assert(get.len() == 3 && get[0] == 'G' && get[1] == 'E' && get[2] == 'T');
    assert("POST"@.len() == 4 && "DELETE"@.len() == 6 && "PATCH"@.len() == 5);
    assert("PUT"@.len() == 3 && "PUT"@[0] == 'P');
    lemma_split_prefix(token, rest, '\n');
    lemma_split_prefix(get, rest, '\n');
    let r0 = split(rest, '\n')[0];
    lemma_split_nonempty(rest, '\n');
    crate::text::lemma_index_of(rest, '\n');
    assert(r0.len() > 0 && r0[0] == ' ');
    lemma_split_prefix(token, r0, ' ');
    lemma_split_prefix(get, r0, ' ');
    lemma_split_nonempty(r0, ' ');
    crate::text::lemma_index_of(r0, ' ');
    assert(split(r0, ' ')[0] =~= Seq::<char>::empty());
    assert(token + split(r0, ' ')[0] =~= token);
    assert(get + split(r0, ' ')[0] =~= get);
    let t1 = request_line_tokens(token + rest);
    let t2 = request_line_tokens(get + rest);
    assert(t1.len() == t2.len());
    if t1.len() >= 2 {
        assert(t1[1] == t1.drop_first()[0]);
        assert(t2[1] == t2.drop_first()[0]);
    }
    assert(method_of(token) == Method::GET);
    assert(method_of(get) == Method::GET);
}

impl Request {
    /// The method token of a request's text: its first line up to the first
    /// space.
    pub fn method_token(text: &str) -> (r: String)
        ensures
            r@ == request_line_tokens(text@)[0],
    {
        let cs = chars_of(text);
        let n = cs.len();
        let ghost s = text@;
        proof {
            assert(s.subrange(0, n as int) =~= s);
            lemma_split_nonempty(s, '\n');
        }
        let e0 = piece_end(&cs, 0, n, '\n');
        let sp = piece_end(&cs, 0, e0, ' ');
        proof {
            let first = s.subrange(0, e0 as int);
            assert(request_lines(s)[0] == first);
            assert(cs@.subrange(0, e0 as int) == first);
            lemma_split_nonempty(first, ' ');
            if sp < e0 {
                assert(split(first, ' ')[0] == s.subrange(0, sp as int));
            } else {
                assert(split(first, ' ')[0] == first);
            }
        }
        substring(text, 0, sp)
    }

    /// Parses the text of a request: a request line `METHOD TARGET ...`,
    /// header lines up to the first blank line, then the body, which is the
    /// rest of the text as it stands.
    pub fn parse(text: &str) -> (r: Result<Request, &'static str>)
        ensures
            match r {
                Ok(q) => request_of(text@) == Ok::<
                    (
                        Method,
                        (Seq<char>, Option<Seq<char>>),
                        Seq<(Seq<char>, Seq<char>)>,
                        Seq<char>,
                    ),
                    &'static str,
                >((q.method, q.path@, q.headers@, q.body@)),
                Err(e) => request_of(text@) == Err::<
                    (
                        Method,
                        (Seq<char>, Option<Seq<char>>),
                        Seq<(Seq<char>, Seq<char>)>,
                        Seq<char>,
                    ),
                    &'static str,
                >(e),
            },
    {
        let cs = chars_of(text);
        let n = cs.len();
        let ghost s = text@;
        let ghost lines = split(s, '\n');
        proof {
            assert(s.subrange(0, n as int) =~= s);
            lemma_split_nonempty(s, '\n');
        }
        let e0 = piece_end(&cs, 0, n, '\n');
        let ghost first = s.subrange(0, e0 as int);
        proof {
            assert(lines[0] == first);
            assert(first.subrange(0, first.len() as int) =~= first);
        }
        let sp = piece_end(&cs, 0, e0, ' ');
        if sp == e0 {
            proof {
                assert(cs@.subrange(0, e0 as int) == first);
                assert(request_line_tokens(s).len() == 1);
            }
            return Err(NO_PATH);
        }
        let sp2 = piece_end(&cs, sp + 1, e0, ' ');
        proof {
            let toks = split(first, ' ');
            assert(cs@.subrange(0, e0 as int) == first);
            lemma_split_nonempty(s.subrange(sp + 1, e0 as int), ' ');
            assert(toks[0] == s.subrange(0, sp as int));
            assert(toks[1] == s.subrange(sp + 1, sp2 as int));
        }
        let method = Method::from(substring(text, 0, sp).as_str());
        let path = Path::from(substring(text, sp + 1, sp2).as_str());
        if e0 == n {
            proof {
                assert(lines.drop_first() =~= Seq::<Seq<char>>::empty());
                let rest = lines.drop_first();
                assert(rest.subrange(0, 0) =~= rest);
                assert(rest.map_values(|l: Seq<char>| crate::headers::header_pair(l))
                    =~= Seq::<(Seq<char>, Seq<char>)>::empty());
            }
            return Ok(Request { method, path, headers: Headers::new(), body: String::new() });
        }
        proof {
            assert(lines.drop_first() =~= split(s.subrange(e0 + 1, n as int), '\n'));
        }
        let (headers, body_start) = Headers::scan_block(text, &cs, e0 + 1);
        match headers {
            Ok(headers) => {
                let body = substring(text, body_start, n);
                Ok(Request { method, path, headers, body })
            },
            Err(_) => Err(BAD_HEADERS),
        }
    }
}

} // verus!
