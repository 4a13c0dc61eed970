//! Responses: the built-in constructors, the `Set-Cookie` header and the
//! wire form.
use vstd::prelude::*;
use vstd::string::*;
use vstd::utf8::encode_utf8;

use crate::headers::Headers;
use crate::mime_type::{extension, mime_of, mime_type};
use crate::status_code::{code_of, digits3, StatusCode};
use crate::str_map::{insert_entry, StrMap};
use crate::text::{join_with, lemma_join_with_push};

verus! {

/// The body of a response to a request for a path that is not routed.
pub const NOT_FOUND_BODY: &'static str = "404\n";

/// The body of the response when a file opened but could not be read.
pub const FILE_READ_ERROR: &'static str = "Could not read file";

/// An HTTP response.
#[derive(Debug)]
pub struct Response {
    pub status: StatusCode,
    pub headers: Headers,
    pub body: Vec<u8>,
}

/// How reading a served file went.
pub enum FileRead {
    /// The file could not be opened.
    NotOpened,
    /// The file opened, but reading it failed.
    ReadFailed,
    /// The file's whole contents.
    Contents(Vec<u8>),
}

/// The headers of a plain-text response.
pub open spec fn text_plain() -> Seq<(Seq<char>, Seq<char>)> {
    seq![("Content-Type"@, "text/plain"@)]
}

/// A cookie entry as `key=value`.
pub open spec fn cookie_text(p: (Seq<char>, Seq<char>)) -> Seq<char> {
    p.0 + "="@ + p.1
}

/// The `Set-Cookie` value for cookie entries: `key=value` pieces joined by
/// `; `, in the entries' order.
pub open spec fn cookie_header(e: Seq<(Seq<char>, Seq<char>)>) -> Seq<char> {
    join_with(e.map_values(|p: (Seq<char>, Seq<char>)| cookie_text(p)), "; "@)
}

/// The status line of a response with `status`.
pub open spec fn status_line_of(status: StatusCode) -> Seq<char> {
    "HTTP/1.1 "@ + digits3(code_of(status)) + "\n"@
}

/// One `Key: Value` line per header entry, in the entries' order.
pub open spec fn header_lines_of(e: Seq<(Seq<char>, Seq<char>)>) -> Seq<char>
    decreases e.len(),
{
    if e.len() == 0 {
        Seq::empty()
    } else {
        header_lines_of(e.drop_last()) + e.last().0 + ": "@ + e.last().1 + "\n"@
    }
}

/// The text before the body: the status line, the header lines and the
/// blank line that ends them.
pub open spec fn head_of(status: StatusCode, e: Seq<(Seq<char>, Seq<char>)>) -> Seq<char> {
    status_line_of(status) + header_lines_of(e) + "\n"@
}

/// The bytes of a response on the wire: its head in UTF-8, then the body
/// bytes as they are.
pub open spec fn wire_of(status: StatusCode, e: Seq<(Seq<char>, Seq<char>)>, body: Seq<u8>) -> Seq<
    u8,
> {
    encode_utf8(head_of(status, e)) + body
}

/// The headers of a plain-text response.
fn plain_headers() -> (r: Headers)
    ensures
        r@ == text_plain(),
{
    let mut h = Headers::new();
    h.insert(String::from_str("Content-Type"), String::from_str("text/plain"));
    h
}

impl Response {
    /// A redirect to `path`.
    pub fn redirect(path: &str) -> (r: Response)
        ensures
            r.status == StatusCode::REDIRECT,
            r.headers@ == text_plain().push(("Location"@, path@)),
            r.body@.len() == 0,
    {
        let mut h = plain_headers();
        proof {
            reveal_strlit("Content-Type");
            reveal_strlit("Location");
            assert("Content-Type"@.len() != "Location"@.len());
            assert(text_plain()[0].0 != "Location"@);
            crate::str_map::lemma_key_index_unique(text_plain(), "Location"@, 1);
        }
        h.insert(String::from_str("Location"), String::from_str(path));
        Response { status: StatusCode::REDIRECT, headers: h, body: Vec::new() }
    }

    /// A plain-text success response with `body`.
    pub fn ok(body: &str) -> (r: Response)
        ensures
            r.status == StatusCode::OK,
            r.headers@ == text_plain(),
            r.body@ == encode_utf8(body@),
    {
        Response { status: StatusCode::OK, headers: plain_headers(), body: body.as_bytes_vec() }
    }

    /// The response to a request for a path that is not routed.
    pub fn not_found() -> (r: Response)
        ensures
            r.status == StatusCode::NOTFOUND,
            r.headers@ == text_plain(),
            r.body@ == encode_utf8(NOT_FOUND_BODY@),
    {
        Response {
            status: StatusCode::NOTFOUND,
            headers: plain_headers(),
            body: NOT_FOUND_BODY.as_bytes_vec(),
        }
    }

    /// A plain-text internal-error response with `body`.
    pub fn internal_err(body: &str) -> (r: Response)
        ensures
            r.status == StatusCode::INTERNALERR,
            r.headers@ == text_plain(),
            r.body@ == encode_utf8(body@),
    {
        Response {
            status: StatusCode::INTERNALERR,
            headers: plain_headers(),
            body: body.as_bytes_vec(),
        }
    }

    /// The response serving the file at `path`, given how reading it went:
    /// not found when it did not open, an internal error when reading failed,
    /// and otherwise its bytes, typed by the file's extension.
    pub fn file(path: &str, read: FileRead) -> (r: Response)
        ensures
            match read {
                FileRead::NotOpened => r.status == StatusCode::NOTFOUND && r.headers@
                    == text_plain() && r.body@ == encode_utf8(NOT_FOUND_BODY@),
                FileRead::ReadFailed => r.status == StatusCode::INTERNALERR && r.headers@
                    == text_plain() && r.body@ == encode_utf8(FILE_READ_ERROR@),
                FileRead::Contents(bytes) => r.status == StatusCode::OK && r.headers@ == seq![
                    ("Content-Type"@, mime_of(extension(path@))),
                ] && r.body@ == bytes@,
            },
    {
        match read {
            FileRead::NotOpened => Response::not_found(),
            FileRead::ReadFailed => Response::internal_err(FILE_READ_ERROR),
            FileRead::Contents(body) => {
                let mut h = Headers::new();
                h.insert(String::from_str("Content-Type"), String::from_str(mime_type(path)));
                Response { status: StatusCode::OK, headers: h, body }
            },
        }
    }

    /// Sets the `Set-Cookie` header to the cookies as `key=value` pieces
    /// joined by `; `, in the cookies' order.
    pub fn set_cookie(&mut self, cookies: StrMap)
        ensures
            final(self).status == old(self).status,
            final(self).body == old(self).body,
            final(self).headers@ == insert_entry(
                old(self).headers@,
                "Set-Cookie"@,
                cookie_header(cookies@),
            ),
    {
        let ghost texts = cookies@.map_values(|p: (Seq<char>, Seq<char>)| cookie_text(p));
        let mut value = String::new();
        let mut i: usize = 0;
        proof {
            assert(texts.subrange(0, 0) =~= Seq::<Seq<char>>::empty());
        }
        while i < cookies.len()
            invariant
                0 <= i <= cookies@.len(),
                texts == cookies@.map_values(|p: (Seq<char>, Seq<char>)| cookie_text(p)),
                value@ == join_with(texts.subrange(0, i as int), "; "@),
            decreases cookies@.len() - i,
        {
            let (k, v) = cookies.entry(i);
            proof {
                lemma_join_with_push(texts.subrange(0, i as int), "; "@, texts[i as int]);
                assert(texts.subrange(0, i as int).push(texts[i as int]) =~= texts.subrange(
                    0,
                    i + 1,
                ));
            }
            if i > 0 {
                value.append("; ");
            }
            value.append(k.as_str());
            value.append("=");
            value.append(v.as_str());
            i = i + 1;
        }
        proof {
            assert(texts.subrange(0, cookies@.len() as int) =~= texts);
        }
        self.headers.insert(String::from_str("Set-Cookie"), value);
    }

    /// The status line, `HTTP/1.1 CODE` and a line break.
    pub fn status_line(&self) -> (r: String)
        ensures
            r@ == status_line_of(self.status),
    {
        let mut r = String::from_str("HTTP/1.1 ");
        r.append(self.status.code_text());
        r.append("\n");
        r
    }

    /// One `Key: Value` line per header, in the headers' order.
    pub fn header_lines(&self) -> (r: String)
        ensures
            r@ == header_lines_of(self.headers@),
    {
        let mut r = String::new();
        let ghost e = self.headers@;
        let mut i: usize = 0;
        proof {
            assert(e.subrange(0, 0) =~= Seq::<(Seq<char>, Seq<char>)>::empty());
        }
        while i < self.headers.len()
            invariant
                0 <= i <= e.len(),
                e == self.headers@,
                r@ == header_lines_of(e.subrange(0, i as int)),
            decreases e.len() - i,
        {
            let (k, v) = self.headers.entry(i);
            proof {
                assert(e.subrange(0, i + 1).drop_last() =~= e.subrange(0, i as int));
            }
            r.append(k.as_str());
            r.append(": ");
            r.append(v.as_str());
            r.append("\n");
            i = i + 1;
        }
        proof {
            assert(e.subrange(0, i as int) =~= e);
        }
        r
    }

    /// The response's bytes on the wire.
    pub fn to_bytes(&self) -> (r: Vec<u8>)
        ensures
            r@ == wire_of(self.status, self.headers@, self.body@),
    {
        let mut head = self.status_line();
        head.append(self.header_lines().as_str());
        head.append("\n");
        let mut out = head.as_str().as_bytes_vec();
        out.extend_from_slice(self.body.as_slice());
        assert(out@ =~= wire_of(self.status, self.headers@, self.body@));
        out
    }
}

} // verus!
