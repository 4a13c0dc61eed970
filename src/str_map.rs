//! `StrMap`: a map from strings to strings that keeps its entries in the
//! order their keys were first inserted, so that walking it is deterministic.
use vstd::prelude::*;

use vstd::std_specs::iter::IteratorSpec;

use crate::text::str_eq;

verus! {

/// Position of the first entry whose key is `k`, or `e.len()`.
pub open spec fn key_index(e: Seq<(Seq<char>, Seq<char>)>, k: Seq<char>) -> int
    decreases e.len(),
{
    if e.len() == 0 {
        0
    } else if e[0].0 == k {
        0
    } else {
        1 + key_index(e.drop_first(), k)
    }
}

/// The value that `e` maps `k` to.
pub open spec fn lookup(e: Seq<(Seq<char>, Seq<char>)>, k: Seq<char>) -> Option<Seq<char>> {
    let i = key_index(e, k);
    if i < e.len() {
        Some(e[i].1)
    } else {
        None
    }
}

/// `e` with `k` mapped to `v`: the entry of `k` keeps its place and takes
/// the new value, or a new entry goes at the end.
pub open spec fn insert_entry(e: Seq<(Seq<char>, Seq<char>)>, k: Seq<char>, v: Seq<char>) -> Seq<
    (Seq<char>, Seq<char>),
> {
    let i = key_index(e, k);
    if i < e.len() {
        e.update(i, (k, v))
    } else {
        e.push((k, v))
    }
}

/// The entries that inserting `pairs` in order into an empty map gives.
pub open spec fn from_pairs(pairs: Seq<(Seq<char>, Seq<char>)>) -> Seq<(Seq<char>, Seq<char>)>
    decreases pairs.len(),
{
    if pairs.len() == 0 {
        Seq::empty()
    } else {
        let last = pairs.last();
        insert_entry(from_pairs(pairs.drop_last()), last.0, last.1)
    }
}

/// No key occurs in two entries.
pub open spec fn keys_unique(e: Seq<(Seq<char>, Seq<char>)>) -> bool {
    forall|i: int, j: int| 0 <= i < j < e.len() ==> e[i].0 != e[j].0
}

/// `key_index` lies within the entries or just past them, points at an
/// entry of `k` when inside, and no earlier entry has key `k`.
pub proof fn lemma_key_index(e: Seq<(Seq<char>, Seq<char>)>, k: Seq<char>)
    ensures
        0 <= key_index(e, k) <= e.len(),
        key_index(e, k) < e.len() ==> e[key_index(e, k)].0 == k,
        forall|j: int| 0 <= j < key_index(e, k) ==> e[j].0 != k,
    decreases e.len(),
{
    if e.len() > 0 && e[0].0 != k {
        lemma_key_index(e.drop_first(), k);
        assert forall|j: int| 0 <= j < key_index(e, k) implies e[j].0 != k by {
            if j > 0 {
                assert(e[j] == e.drop_first()[j - 1]);
            }
        }
    }
}

/// `key_index` is the one position before which no entry has key `k` and
/// at which one has, or the end.
pub proof fn lemma_key_index_unique(e: Seq<(Seq<char>, Seq<char>)>, k: Seq<char>, n: int)
    requires
        0 <= n <= e.len(),
        n < e.len() ==> e[n].0 == k,
        forall|j: int| 0 <= j < n ==> e[j].0 != k,
    ensures
        key_index(e, k) == n,
    decreases e.len(),
{
    if e.len() > 0 && e[0].0 != k {
        lemma_key_index_unique(e.drop_first(), k, n - 1);
    }
}

/// Inserting keeps keys unique, and afterwards `k` maps to `v` while every
/// other key maps to what it mapped to before.
pub proof fn lemma_insert_entry(e: Seq<(Seq<char>, Seq<char>)>, k: Seq<char>, v: Seq<char>)
    ensures
        keys_unique(e) ==> keys_unique(insert_entry(e, k, v)),
        lookup(insert_entry(e, k, v), k) == Some(v),
        forall|k2: Seq<char>| k2 != k ==> lookup(insert_entry(e, k, v), k2) == lookup(e, k2),
{
    lemma_key_index(e, k);
    let e2 = insert_entry(e, k, v);
    let i = key_index(e, k);
    if i < e.len() {
        lemma_key_index_unique(e2, k, i);
    } else {
        lemma_key_index_unique(e2, k, e.len() as int);
    }
    assert forall|k2: Seq<char>| k2 != k implies lookup(e2, k2) == lookup(e, k2) by {
        lemma_key_index(e, k2);
        if key_index(e, k2) < e.len() {
            lemma_key_index_unique(e2, k2, key_index(e, k2));
        } else {
            lemma_key_index_unique(e2, k2, e2.len() as int);
        }
    }
}

/// A string-to-string map that keeps its entries in insertion order.
#[derive(Debug)]
pub struct StrMap {
    entries: Vec<(String, String)>,
}

impl View for StrMap {
    type V = Seq<(Seq<char>, Seq<char>)>;

    closed spec fn view(&self) -> Seq<(Seq<char>, Seq<char>)> {
        self.entries@.map_values(|p: (String, String)| (p.0@, p.1@))
    }
}

impl StrMap {
    /// An empty map.
    pub fn new() -> (r: StrMap)
        ensures
            r@ == Seq::<(Seq<char>, Seq<char>)>::empty(),
            keys_unique(r@),
    {
        let r = StrMap { entries: Vec::new() };
        assert(r@ =~= Seq::<(Seq<char>, Seq<char>)>::empty());
        r
    }

    /// Number of entries.
    pub fn len(&self) -> (r: usize)
        ensures
            r == self@.len(),
    {
        self.entries.len()
    }

    /// Whether the map has no entry.
    pub fn is_empty(&self) -> (r: bool)
        ensures
            r == (self@.len() == 0),
    {
        self.entries.len() == 0
    }

    /// Position of the entry of `key`, or the number of entries.
    fn position(&self, key: &str) -> (r: usize)
        ensures
            r == key_index(self@, key@),
    {
        let mut i: usize = 0;
        while i < self.entries.len() && !str_eq(self.entries[i].0.as_str(), key)
            invariant
                0 <= i <= self@.len(),
                self@.len() == self.entries@.len(),
                forall|j: int| 0 <= j < i ==> self@[j].0 != key@,
            decreases self@.len() - i,
        {
            i = i + 1;
        }
        proof {
            lemma_key_index_unique(self@, key@, i as int);
        }
        i
    }

    /// The value of `key`, if the map has it.
    pub fn get(&self, key: &str) -> (r: Option<&String>)
        ensures
            match r {
                Some(v) => lookup(self@, key@) == Some(v@),
                None => lookup(self@, key@) is None,
            },
    {
        let i = self.position(key);
        if i < self.entries.len() {
            Some(&self.entries[i].1)
        } else {
            None
        }
    }

    /// Maps `key` to `value`; an existing entry of `key` keeps its place.
    pub fn insert(&mut self, key: String, value: String)
        ensures
            final(self)@ == insert_entry(old(self)@, key@, value@),
            keys_unique(old(self)@) ==> keys_unique(final(self)@),
    {
        proof {
            lemma_insert_entry(self@, key@, value@);
        }
        let i = self.position(key.as_str());
        let ghost e = self@;
        if i < self.entries.len() {
            self.entries.set(i, (key, value));
        } else {
            self.entries.push((key, value));
        }
        assert(self@ =~= insert_entry(e, key@, value@));
    }

    /// The entry at position `i`.
    pub fn entry(&self, i: usize) -> (r: (&String, &String))
        requires
            i < self@.len(),
        ensures
            (r.0@, r.1@) == self@[i as int],
    {
        let p = &self.entries[i];
        (&p.0, &p.1)
    }

    /// The entries, in order.
    pub fn iter(&self) -> (r: std::slice::Iter<'_, (String, String)>)
        ensures
            r.remaining().len() == self@.len(),
            forall|i: int|
                0 <= i < self@.len() ==> ((#[trigger] r.remaining()[i]).0@, r.remaining()[i].1@)
                    == self@[i],
    {
        self.entries.iter()
    }
}

} // verus!
