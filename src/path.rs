//! Request targets: a main path and an optional raw query string.
use vstd::prelude::*;
use vstd::string::*;

use crate::params::{params_of, parse_url_param, INVALID_PARAM};
use crate::str_map::StrMap;
use crate::text::{chars_of, find_char, index_of, lemma_index_of, substring};

verus! {

/// A request target split at its first `?`.
#[derive(Debug)]
pub struct Path {
    /// The part before the first `?`, the only part that routing compares.
    pub data: String,
    /// The part after the first `?`, if there is a `?`.
    pub params: Option<String>,
}

impl View for Path {
    type V = (Seq<char>, Option<Seq<char>>);

    open spec fn view(&self) -> (Seq<char>, Option<Seq<char>>) {
        (
            self.data@,
            match self.params {
                Some(p) => Some(p@),
                None => None,
            },
        )
    }
}

/// The target text `s` split at its first `?`.
pub open spec fn path_of(s: Seq<char>) -> (Seq<char>, Option<Seq<char>>) {
    let i = index_of(s, '?');
    if i < s.len() {
        (s.subrange(0, i), Some(s.subrange(i + 1, s.len() as int)))
    } else {
        (s, None)
    }
}

/// The text of a target: the main part, then `?` and the query if there
/// is one.
pub open spec fn path_text(p: (Seq<char>, Option<Seq<char>>)) -> Seq<char> {
    match p.1 {
        Some(q) => p.0 + seq!['?'] + q,
        None => p.0,
    }
}

/// Splitting a target at its first `?` and writing it out again gives
/// back the same text, with or without a query.
pub proof fn lemma_path_round_trip(s: Seq<char>)
    ensures
        path_text(path_of(s)) == s,
{
    lemma_index_of(s, '?');
    let i = index_of(s, '?');
    if i < s.len() {
        assert(s =~= s.subrange(0, i) + seq!['?'] + s.subrange(i + 1, s.len() as int));
    }
}

impl vstd::std_specs::convert::FromSpecImpl<&str> for Path {
    open spec fn obeys_from_spec() -> bool {
        false
    }

    open spec fn from_spec(s: &str) -> Path {
        arbitrary()
    }
}

impl From<&str> for Path {
    /// Splits `s` at its first `?`.
    fn from(s: &str) -> (r: Path)
        ensures
            r@ == path_of(s@),
    {
        let cs = chars_of(s);
        let n = cs.len();
        let q = find_char(&cs, 0, n, '?');
        proof {
            assert(cs@.subrange(0, n as int) =~= s@);
        }
        if q < n {
            Path { data: substring(s, 0, q), params: Some(substring(s, q + 1, n)) }
        } else {
            Path { data: substring(s, 0, n), params: None }
        }
    }
}

impl PartialEq<String> for Path {
    /// Whether the main part of the target is `other`; the query is not
    /// compared.
    fn eq(&self, other: &String) -> (r: bool) {
        self.data == *other
    }
}

impl vstd::std_specs::cmp::PartialEqSpecImpl<String> for Path {
    open spec fn obeys_eq_spec() -> bool {
        true
    }

    open spec fn eq_spec(&self, other: &String) -> bool {
        self.data@ == other@
    }
}

impl Path {
    /// The target as text: `data`, then `?` and the query if there is one.
    pub fn to_string(&self) -> (r: String)
        ensures
            r@ == path_text(self@),
    {
        let mut r = self.data.clone();
        match &self.params {
            Some(p) => {
                r.append("?");
                r.append(p.as_str());
                proof {
                    reveal_strlit("?");
                }
            },
            None => {},
        }
        r
    }

    /// The query's parameters: an empty map without a query, and an error
    /// when a piece of the query has no `=`.
    pub fn parse_params(&self) -> (r: Result<StrMap, &'static str>)
        ensures
            match self@.1 {
                None => r matches Ok(m) && m@.len() == 0,
                Some(q) => match r {
                    Ok(m) => params_of(q) == Some(m@),
                    Err(e) => params_of(q) is None && e == INVALID_PARAM,
                },
            },
    {
        match &self.params {
            Some(p) => parse_url_param(p.as_str()),
            None => Ok(StrMap::new()),
        }
    }
}

} // verus!
