//! The computing steps of serving one connection that lie between routing
//! and writing: reading the request's cookies and echoing them back.
use vstd::prelude::*;

use crate::params::has_eq;
use crate::request::Request;
use crate::response::{cookie_header, Response};
use crate::str_map::{from_pairs, insert_entry, lookup, StrMap};
use crate::text::{
    chars_of,
    find_char,
    index_of,
    lemma_index_of,
    lemma_split_nonempty,
    piece_end,
    split,
    substring,
    trim,
    trim_range,
};

verus! {

/// A cookie fragment `k=v` as `(trim(k), trim(v))`, split at its first `=`.
pub open spec fn cookie_pair(f: Seq<char>) -> (Seq<char>, Seq<char>) {
    let i = index_of(f, '=');
    (trim(f.subrange(0, i)), trim(f.subrange(i + 1, f.len() as int)))
}

/// The pairs of the fragments that hold a `=`, in order.
pub open spec fn cookie_pairs(fs: Seq<Seq<char>>) -> Seq<(Seq<char>, Seq<char>)>
    decreases fs.len(),
{
    if fs.len() == 0 {
        Seq::empty()
    } else {
        let prev = cookie_pairs(fs.drop_last());
        if has_eq(fs.last()) {
            prev.push(cookie_pair(fs.last()))
        } else {
            prev
        }
    }
}

/// The cookies of a `Cookie` header value: fragments split on `;`, those
/// without `=` left out; a name given twice keeps its first place and its
/// last value.
pub open spec fn cookies_in(v: Seq<char>) -> Seq<(Seq<char>, Seq<char>)> {
    from_pairs(cookie_pairs(split(v, ';')))
}

/// The value of the request's `Cookie` header, empty when it has none.
pub open spec fn cookie_value(h: Seq<(Seq<char>, Seq<char>)>) -> Seq<char> {
    match lookup(h, "Cookie"@) {
        Some(v) => v,
        None => Seq::empty(),
    }
}

/// Parses a `Cookie` header value.
pub fn parse_cookies(value: &str) -> (r: StrMap)
    ensures
        r@ == cookies_in(value@),
{
    let cs = chars_of(value);
    let n = cs.len();
    let ghost s = value@;
    let ghost parts = split(s, ';');
    let mut m = StrMap::new();
    let mut pos: usize = 0;
    let mut finished = false;
    let ghost mut k: int = 0;
    proof {
        assert(s.subrange(0, n as int) =~= s);
        assert(parts.subrange(0, parts.len() as int) =~= parts);
    }
    while !finished
        invariant
            cs@ == s,
            s == value@,
            n == s.len(),
            pos <= n,
            parts == split(s, ';'),
            0 <= k <= parts.len(),
            !finished ==> parts.subrange(k, parts.len() as int) == split(
                s.subrange(pos as int, n as int),
                ';',
            ),
            finished ==> k == parts.len(),
            m@ == from_pairs(cookie_pairs(parts.subrange(0, k))),
        decreases (if finished {
            0
        } else {
            n - pos + 1
        }),
    {
        let e = piece_end(&cs, pos, n, ';');
        let ghost piece = s.subrange(pos as int, e as int);
        proof {
            lemma_split_nonempty(s.subrange(pos as int, n as int), ';');
            assert(parts[k] == parts.subrange(k, parts.len() as int)[0]);
            assert(parts[k] == piece);
            if e < n {
                lemma_split_nonempty(s.subrange(e + 1, n as int), ';');
                assert(parts.subrange(k + 1, parts.len() as int) =~= parts.subrange(
                    k,
                    parts.len() as int,
                ).drop_first());
            } else {
                assert(parts.subrange(k, parts.len() as int).len() == 1);
            }
            assert(parts.subrange(0, k + 1).drop_last() =~= parts.subrange(0, k));
            assert(parts.subrange(0, k + 1).last() == piece);
        }
        let q = find_char(&cs, pos, e, '=');
        if q < e {
            let (ka, kb) = trim_range(&cs, pos, q);
            let (va, vb) = trim_range(&cs, q + 1, e);
            let key = substring(value, ka, kb);
            let val = substring(value, va, vb);
            proof {
                lemma_index_of(piece, '=');
                assert(has_eq(piece));
                assert(piece.subrange(0, q - pos) =~= cs@.subrange(pos as int, q as int));
                assert(piece.subrange(q - pos + 1, piece.len() as int) =~= cs@.subrange(
                    q + 1,
                    e as int,
                ));
                assert(key@ =~= cs@.subrange(ka as int, kb as int));
                assert(val@ =~= cs@.subrange(va as int, vb as int));
                assert(cookie_pair(piece) == (key@, val@));
                let next = cookie_pairs(parts.subrange(0, k + 1));
                assert(next == cookie_pairs(parts.subrange(0, k)).push((key@, val@)));
                assert(next.drop_last() =~= cookie_pairs(parts.subrange(0, k)));
            }
            m.insert(key, val);
        } else {
            proof {
                assert(piece =~= cs@.subrange(pos as int, e as int));
                assert(!has_eq(piece));
            }
        }
        if e < n {
            pos = e + 1;
        } else {
            finished = true;
        }
        proof {
            k = k + 1;
        }
    }
    m
}

/// The last step before writing: when the request carries cookies, the
/// response gets a `Set-Cookie` header that echoes them, and otherwise it
/// stays as it is.
pub fn merge_cookies(req: &Request, res: &mut Response)
    ensures
        final(res).status == old(res).status,
        final(res).body == old(res).body,
        ({
            let c = cookies_in(cookie_value(req.headers@));
            &&& c.len() > 0 ==> final(res).headers@ == insert_entry(
                old(res).headers@,
                "Set-Cookie"@,
                cookie_header(c),
            )
            &&& c.len() == 0 ==> final(res).headers@ == old(res).headers@
        }),
{
    let cookies = match req.headers.get("Cookie") {
        Some(v) => parse_cookies(v.as_str()),
        None => {
            proof {
                reveal_strlit("");
                assert(""@ =~= Seq::<char>::empty());
            }
            parse_cookies("")
        },
    };
    if !cookies.is_empty() {
        res.set_cookie(cookies);
    }
}

} // verus!
