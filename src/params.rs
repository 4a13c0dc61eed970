//! `key=value&key=value` parameter lists, as found in query strings and
//! form bodies.
use vstd::prelude::*;

use crate::str_map::{from_pairs, StrMap};
use crate::text::{chars_of, find_char, index_of, lemma_index_of, lemma_split_nonempty, piece_end, split, split_terminator, substring};

verus! {

/// The error of a parameter list with a piece that has no `=`.
pub const INVALID_PARAM: &'static str = "Invalid URL param";

/// A piece `k=v` as the pair `(k, v)`, split at its first `=`.
pub open spec fn param_pair(p: Seq<char>) -> (Seq<char>, Seq<char>) {
    let i = index_of(p, '=');
    (p.subrange(0, i), p.subrange(i + 1, p.len() as int))
}

/// Whether `p` holds a `=`.
pub open spec fn has_eq(p: Seq<char>) -> bool {
    index_of(p, '=') < p.len()
}

/// The pieces of a parameter list: split on `&`, a trailing empty piece
/// left out.
pub open spec fn param_pieces(s: Seq<char>) -> Seq<Seq<char>> {
    split_terminator(s, '&')
}

/// The entries of the parameter list `s`, or `None` when one of its pieces
/// has no `=`. A key given twice keeps its first place and its last value.
pub open spec fn params_of(s: Seq<char>) -> Option<Seq<(Seq<char>, Seq<char>)>> {
    let pieces = param_pieces(s);
    if forall|i: int| 0 <= i < pieces.len() ==> #[trigger] has_eq(pieces[i]) {
        Some(from_pairs(pieces.map_values(|p: Seq<char>| param_pair(p))))
    } else {
        None
    }
}

/// Parses the parameter list `input` into a map.
pub fn parse_url_param(input: &str) -> (r: Result<StrMap, &'static str>)
    ensures
        match r {
            Ok(m) => params_of(input@) == Some(m@),
            Err(e) => params_of(input@) is None && e == INVALID_PARAM,
        },
{
    let cs = chars_of(input);
    let n = cs.len();
    let ghost s = input@;
    let ghost parts = split(s, '&');
    let ghost f = |p: Seq<char>| param_pair(p);
    let mut m = StrMap::new();
    let mut pos: usize = 0;
    let ghost mut k: int = 0;
    let mut finished = false;
    proof {
        assert(s.subrange(0, n as int) =~= s);
        assert(parts.subrange(0, 0).map_values(f) =~= Seq::<Seq<char>>::empty().map_values(f));
    }
    while pos < n
        invariant
            cs@ == s,
            s == input@,
            n == s.len(),
            parts == split(s, '&'),
            f == (|p: Seq<char>| param_pair(p)),
            0 <= k <= parts.len(),
            pos <= n,
            !finished ==> parts.subrange(k, parts.len() as int) == split(
                s.subrange(pos as int, n as int),
                '&',
            ),
            finished ==> pos == n && k == parts.len() && parts.last().len() > 0,
            forall|i: int| 0 <= i < k ==> #[trigger] has_eq(parts[i]),
            m@ == from_pairs(parts.subrange(0, k).map_values(f)),
        decreases n - pos,
    {
        let e = piece_end(&cs, pos, n, '&');
        let ghost piece = s.subrange(pos as int, e as int);
        proof {
            lemma_split_nonempty(s.subrange(pos as int, n as int), '&');
            assert(parts[k] == parts.subrange(k, parts.len() as int)[0]);
            assert(parts[k] == piece);
            if e < n {
                lemma_split_nonempty(s.subrange(e + 1, n as int), '&');
                assert(parts.subrange(k + 1, parts.len() as int) =~= parts.subrange(
                    k,
                    parts.len() as int,
                ).drop_first());
            } else {
                assert(parts.subrange(k, parts.len() as int).len() == 1);
            }
        }
        let q = find_char(&cs, pos, e, '=');
        if q == e {
            proof {
                assert(piece =~= cs@.subrange(pos as int, e as int));
                assert(!has_eq(parts[k]));
                let pieces = param_pieces(s);
                if e < n {
                    assert(pieces[k] == parts[k]);
                } else {
                    assert(parts.len() == k + 1);
                    assert(parts.last().len() > 0);
                    assert(pieces[k] == parts[k]);
                }
                assert(!has_eq(pieces[k]));
            }
            return Err(INVALID_PARAM);
        }
        let key = substring(input, pos, q);
        let value = substring(input, q + 1, e);
        proof {
            lemma_index_of(piece, '=');
            assert(has_eq(parts[k]));
            assert(key@ =~= param_pair(piece).0);
            assert(value@ =~= param_pair(piece).1);
            let prev = parts.subrange(0, k).map_values(f);
            let next = parts.subrange(0, k + 1).map_values(f);
            assert(next.drop_last() =~= prev);
            assert(next.last() == param_pair(piece));
        }
        m.insert(key, value);
        if e < n {
            pos = e + 1;
        } else {
            pos = n;
            finished = true;
        }
        proof {
            k = k + 1;
        }
    }
    proof {
        let pieces = param_pieces(s);
        if !finished {
            let empty = Seq::<char>::empty();
            assert(s.subrange(n as int, n as int) =~= empty);
            assert(index_of(empty, '&') == 0);
            assert(split(empty, '&') == seq![empty]);
            assert(parts.subrange(k, parts.len() as int).len() == 1);
            assert(parts.last() == parts.subrange(k, parts.len() as int)[0]);
            assert(parts.last().len() == 0);
            assert(pieces =~= parts.subrange(0, k));
        } else {
            assert(pieces =~= parts.subrange(0, k));
        }
        assert forall|i: int| 0 <= i < pieces.len() implies #[trigger] has_eq(pieces[i]) by {
            assert(pieces[i] == parts[i]);
        }
        assert(pieces.map_values(f) =~= parts.subrange(0, k).map_values(f));
    }
    Ok(m)
}

} // verus!
