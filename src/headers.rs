//! Header maps and the parsing of header lines.
use vstd::prelude::*;

use vstd::std_specs::iter::IteratorSpec;

use crate::str_map::{from_pairs, insert_entry, lookup, StrMap};
use crate::text::{
    chars_of,
    find_char,
    index_of,
    join,
    lemma_join_split,
    lemma_split_nonempty,
    piece_end,
    split,
    substring,
    trim,
    trim_range,
    trim_start,
};

verus! {

/// The error of a header line whose key is empty.
pub const EMPTY_KEY: &'static str = "Invalid header";

/// The error of a header line without a `:`.
pub const NO_SEPARATOR: &'static str = "Invalid header, no ': ' found";

/// A header line `K: V` as the pair `(trim(K), trim(V))`, split at its
/// first `:`; the empty-key error comes before the missing-separator one.
pub open spec fn header_of(line: Seq<char>) -> Result<(Seq<char>, Seq<char>), &'static str> {
    let i = index_of(line, ':');
    let key = trim(line.subrange(0, i));
    if key.len() == 0 {
        Err(EMPTY_KEY)
    } else if i == line.len() {
        Err(NO_SEPARATOR)
    } else {
        Ok((key, trim(line.subrange(i + 1, line.len() as int))))
    }
}

/// A line that is empty once trimmed; it ends a header block.
pub open spec fn is_blank(line: Seq<char>) -> bool {
    trim(line).len() == 0
}

/// Position of the first blank line, or `lines.len()`.
pub open spec fn first_blank(lines: Seq<Seq<char>>) -> int
    decreases lines.len(),
{
    if lines.len() == 0 {
        0
    } else if is_blank(lines[0]) {
        0
    } else {
        1 + first_blank(lines.drop_first())
    }
}

/// Position of the first line that is no header line, or `lines.len()`.
pub open spec fn first_bad(lines: Seq<Seq<char>>) -> int
    decreases lines.len(),
{
    if lines.len() == 0 {
        0
    } else if header_of(lines[0]) is Err {
        0
    } else {
        1 + first_bad(lines.drop_first())
    }
}

/// The pair of a line that parses as a header.
pub open spec fn header_pair(line: Seq<char>) -> (Seq<char>, Seq<char>) {
    header_of(line)->Ok_0
}

/// The headers of the lines before the first blank one, or the error of
/// the first of them that does not parse.
pub open spec fn header_block(lines: Seq<Seq<char>>) -> Result<
    Seq<(Seq<char>, Seq<char>)>,
    &'static str,
> {
    let block = lines.subrange(0, first_blank(lines));
    let b = first_bad(block);
    if b < block.len() {
        Err(header_of(block[b])->Err_0)
    } else {
        Ok(from_pairs(block.map_values(|l: Seq<char>| header_pair(l))))
    }
}

/// The lines after the first blank one, joined again by line breaks.
pub open spec fn text_after_block(lines: Seq<Seq<char>>) -> Seq<char> {
    let b = first_blank(lines);
    if b < lines.len() {
        join(lines.subrange(b + 1, lines.len() as int), '\n')
    } else {
        Seq::empty()
    }
}

/// A header line `K: V` whose key part has no `:` parses as the key and the
/// value, each trimmed; a line without `:` that is not blank fails for the
/// missing separator; a line whose key trims to nothing fails for the
/// empty key.
pub proof fn lemma_header_line(k: Seq<char>, v: Seq<char>, line: Seq<char>)
    requires
        forall|j: int| 0 <= j < k.len() ==> k[j] != ':',
        trim(k).len() > 0,
    ensures
        header_of(k + ": "@ + v) == Ok::<(Seq<char>, Seq<char>), &'static str>((trim(k), trim(v))),
        (forall|j: int| 0 <= j < line.len() ==> line[j] != ':') && trim(line).len() > 0
            ==> header_of(line) == Err::<(Seq<char>, Seq<char>), &'static str>(NO_SEPARATOR),
        trim(line.subrange(0, index_of(line, ':'))).len() == 0 ==> header_of(line) == Err::<
            (Seq<char>, Seq<char>),
            &'static str,
        >(EMPTY_KEY),
{
    reveal_strlit(": ");
    let l = k + ": "@ + v;
    crate::text::lemma_index_of_unique(l, ':', k.len() as int);
    assert(l.subrange(0, k.len() as int) =~= k);
    let after = l.subrange(k.len() as int + 1, l.len() as int);
    assert(after =~= seq![' '] + v);
    assert(after.drop_first() =~= v);
    assert(trim_start(after) == trim_start(v));
    if forall|j: int| 0 <= j < line.len() ==> line[j] != ':' {
        crate::text::lemma_index_of_unique(line, ':', line.len() as int);
        assert(line.subrange(0, line.len() as int) =~= line);
    }
}

/// `first_blank` is the one position before which no line is blank and at
/// which a blank line stands, or the end.
proof fn lemma_first_blank_unique(lines: Seq<Seq<char>>, k: int)
    requires
        0 <= k <= lines.len(),
        k < lines.len() ==> is_blank(lines[k]),
        forall|j: int| 0 <= j < k ==> !is_blank(#[trigger] lines[j]),
    ensures
        first_blank(lines) == k,
    decreases lines.len(),
{
    if lines.len() > 0 && !is_blank(lines[0]) {
        assert forall|j: int| 0 <= j < k - 1 implies !is_blank(#[trigger] lines.drop_first()[j]) by {
            assert(lines.drop_first()[j] == lines[j + 1]);
        }
        lemma_first_blank_unique(lines.drop_first(), k - 1);
    }
}

/// `first_bad` is the one position before which every line parses and at
/// which a line fails, or the end.
proof fn lemma_first_bad_unique(lines: Seq<Seq<char>>, k: int)
    requires
        0 <= k <= lines.len(),
        k < lines.len() ==> header_of(lines[k]) is Err,
        forall|j: int| 0 <= j < k ==> #[trigger] header_of(lines[j]) is Ok,
    ensures
        first_bad(lines) == k,
    decreases lines.len(),
{
    if lines.len() > 0 && header_of(lines[0]) is Ok {
        assert forall|j: int| 0 <= j < k - 1 implies #[trigger] header_of(
            lines.drop_first()[j],
        ) is Ok by {
            assert(lines.drop_first()[j] == lines[j + 1]);
        }
        lemma_first_bad_unique(lines.drop_first(), k - 1);
    }
}

/// A map of header names to values, in the order the names first came.
#[derive(Debug)]
pub struct Headers {
    data: StrMap,
}

impl View for Headers {
    type V = Seq<(Seq<char>, Seq<char>)>;

    closed spec fn view(&self) -> Seq<(Seq<char>, Seq<char>)> {
        self.data@
    }
}

impl Headers {
    /// No headers.
    pub fn new() -> (r: Headers)
        ensures
            r@ == Seq::<(Seq<char>, Seq<char>)>::empty(),
    {
        Headers { data: StrMap::new() }
    }

    /// The value of `User-Agent`, if present.
    pub fn user_agent(&self) -> (r: Option<&String>)
        ensures
            match r {
                Some(v) => lookup(self@, "User-Agent"@) == Some(v@),
                None => lookup(self@, "User-Agent"@) is None,
            },
    {
        self.get("User-Agent")
    }

    /// The value of the header named exactly `key` (case counts).
    pub fn get(&self, key: &str) -> (r: Option<&String>)
        ensures
            match r {
                Some(v) => lookup(self@, key@) == Some(v@),
                None => lookup(self@, key@) is None,
            },
    {
        self.data.get(key)
    }

    /// Number of headers.
    pub fn len(&self) -> (r: usize)
        ensures
            r == self@.len(),
    {
        self.data.len()
    }

    /// The entry at position `i`.
    pub fn entry(&self, i: usize) -> (r: (&String, &String))
        requires
            i < self@.len(),
        ensures
            (r.0@, r.1@) == self@[i as int],
    {
        self.data.entry(i)
    }

    /// The entries, in order.
    pub fn iter(&self) -> (r: std::slice::Iter<'_, (String, String)>)
        ensures
            r.remaining().len() == self@.len(),
            forall|i: int|
                0 <= i < self@.len() ==> ((#[trigger] r.remaining()[i]).0@, r.remaining()[i].1@)
                    == self@[i],
    {
        self.data.iter()
    }

    /// Sets `key` to `value`; a header already present keeps its place.
    pub fn insert(&mut self, key: String, value: String)
        ensures
            final(self)@ == insert_entry(old(self)@, key@, value@),
    {
        self.data.insert(key, value);
    }

    /// Parses one header line `Key: Value`.
    pub fn parse_header_line(line: &str) -> (r: Result<(String, String), &'static str>)
        ensures
            match r {
                Ok((k, v)) => header_of(line@) == Ok::<(Seq<char>, Seq<char>), &'static str>(
                    (k@, v@),
                ),
                Err(e) => header_of(line@) == Err::<(Seq<char>, Seq<char>), &'static str>(e),
            },
    {
        let cs = chars_of(line);
        let n = cs.len();
        let colon = find_char(&cs, 0, n, ':');
        proof {
            assert(cs@.subrange(0, n as int) =~= line@);
            assert(cs@.subrange(0, colon as int) =~= line@.subrange(0, colon as int));
        }
        let (ka, kb) = trim_range(&cs, 0, colon);
        if ka == kb {
            return Err(EMPTY_KEY);
        }
        if colon == n {
            return Err(NO_SEPARATOR);
        }
        let (va, vb) = trim_range(&cs, colon + 1, n);
        let key = substring(line, ka, kb);
        let value = substring(line, va, vb);
        proof {
            assert(key@ =~= cs@.subrange(ka as int, kb as int));
            assert(value@ =~= cs@.subrange(va as int, vb as int));
        }
        Ok((key, value))
    }

    /// Parses the header lines of `text[pos..]` up to the first blank line;
    /// also gives where the text after that blank line starts.
    pub(crate) fn scan_block(text: &str, cs: &Vec<char>, pos: usize) -> (r: (
        Result<Headers, &'static str>,
        usize,
    ))
        requires
            cs@ == text@,
            pos <= text@.len(),
        ensures
            ({
                let lines = split(text@.subrange(pos as int, text@.len() as int), '\n');
                &&& match r.0 {
                    Ok(h) => header_block(lines) == Ok::<
                        Seq<(Seq<char>, Seq<char>)>,
                        &'static str,
                    >(h@),
                    Err(e) => header_block(lines) == Err::<
                        Seq<(Seq<char>, Seq<char>)>,
                        &'static str,
                    >(e),
                }
                &&& pos <= r.1 <= text@.len()
                &&& r.0 is Ok ==> text@.subrange(r.1 as int, text@.len() as int)
                    == text_after_block(lines)
            }),
    {
        let n = cs.len();
        let ghost s = text@;
        let ghost lines = split(s.subrange(pos as int, n as int), '\n');
        let ghost f = |l: Seq<char>| header_pair(l);
        let mut h = Headers::new();
        let mut at = pos;
        let mut finished = false;
        let ghost mut k: int = 0;
        proof {
            assert(lines.subrange(0, 0).map_values(f) =~= Seq::<Seq<char>>::empty().map_values(f));
            assert(lines.subrange(0, lines.len() as int) =~= lines);
        }
        while !finished
            invariant
                cs@ == s,
                s == text@,
                n == s.len(),
                pos <= at <= n,
                lines == split(s.subrange(pos as int, n as int), '\n'),
                f == (|l: Seq<char>| header_pair(l)),
                0 <= k <= lines.len(),
                !finished ==> lines.subrange(k, lines.len() as int) == split(
                    s.subrange(at as int, n as int),
                    '\n',
                ),
                finished ==> k == lines.len() && at == n,
                forall|i: int|
                    0 <= i < k ==> !is_blank(#[trigger] lines[i]) && header_of(lines[i]) is Ok,
                h@ == from_pairs(lines.subrange(0, k).map_values(f)),
            decreases (if finished {
                0
            } else {
                n - at + 1
            }),
        {
            let e = piece_end(cs, at, n, '\n');
            let ghost line = s.subrange(at as int, e as int);
            proof {
                lemma_split_nonempty(s.subrange(at as int, n as int), '\n');
                assert(lines[k] == lines.subrange(k, lines.len() as int)[0]);
                assert(lines[k] == line);
                if e < n {
                    lemma_split_nonempty(s.subrange(e + 1, n as int), '\n');
                    assert(lines.subrange(k + 1, lines.len() as int) =~= lines.subrange(
                        k,
                        lines.len() as int,
                    ).drop_first());
                } else {
                    assert(lines.subrange(k, lines.len() as int).len() == 1);
                }
            }
            let (ta, tb) = trim_range(cs, at, e);
            if ta == tb {
                let rest = if e < n {
                    e + 1
                } else {
                    n
                };
                proof {
                    assert(is_blank(lines[k]));
                    lemma_first_blank_unique(lines, k);
                    let block = lines.subrange(0, k);
                    assert forall|j: int| 0 <= j < k implies #[trigger] header_of(
                        block[j],
                    ) is Ok by {
                        assert(block[j] == lines[j]);
                    }
                    lemma_first_bad_unique(block, k);
                    if e < n {
                        lemma_join_split(s.subrange(e + 1, n as int), '\n');
                        assert(lines.subrange(k + 1, lines.len() as int) == split(
                            s.subrange(e + 1, n as int),
                            '\n',
                        ));
                    } else {
                        assert(lines.subrange(k + 1, lines.len() as int) =~= Seq::<
                            Seq<char>,
                        >::empty());
                        assert(s.subrange(n as int, n as int) =~= Seq::<char>::empty());
                    }
                }
                return (Ok(h), rest);
            }
            let line_text = substring(text, at, e);
            match Headers::parse_header_line(line_text.as_str()) {
                Err(er) => {
                    proof {
                        assert(!is_blank(lines[k]));
                        lemma_first_blank_bound(lines, k + 1);
                        let block = lines.subrange(0, first_blank(lines));
                        assert forall|j: int| 0 <= j < k implies #[trigger] header_of(
                            block[j],
                        ) is Ok by {
                            assert(block[j] == lines[j]);
                        }
                        assert(block[k] == lines[k]);
                        lemma_first_bad_unique(block, k);
                    }
                    return (Err(er), pos);
                },
                Ok((key, value)) => {
                    proof {
                        let prev = lines.subrange(0, k).map_values(f);
                        let next = lines.subrange(0, k + 1).map_values(f);
                        assert(next.drop_last() =~= prev);
                        assert(next.last() == header_pair(line));
                    }
                    h.insert(key, value);
                },
            }
            if e < n {
                at = e + 1;
            } else {
                at = n;
                finished = true;
            }
            proof {
                k = k + 1;
            }
        }
        proof {
            lemma_first_blank_unique(lines, k);
            let block = lines.subrange(0, k);
            assert(block =~= lines);
            lemma_first_bad_unique(block, k);
            assert(block.map_values(f) =~= lines.subrange(0, k).map_values(f));
        }
        (Ok(h), n)
    }

    /// Parses header lines separated by line breaks, up to the first blank
    /// line; the first line that does not parse gives the error.
    pub fn try_from(text: &str) -> (r: Result<Headers, &'static str>)
        ensures
            match r {
                Ok(h) => header_block(split(text@, '\n')) == Ok::<
                    Seq<(Seq<char>, Seq<char>)>,
                    &'static str,
                >(h@),
                Err(e) => header_block(split(text@, '\n')) == Err::<
                    Seq<(Seq<char>, Seq<char>)>,
                    &'static str,
                >(e),
            },
    {
        let cs = chars_of(text);
        proof {
            assert(text@.subrange(0, text@.len() as int) =~= text@);
        }
        Headers::scan_block(text, &cs, 0).0
    }
}

/// No blank line before `k` puts the first blank line at `k` or later.
proof fn lemma_first_blank_bound(lines: Seq<Seq<char>>, k: int)
    requires
        0 <= k <= lines.len(),
        forall|j: int| 0 <= j < k ==> !is_blank(#[trigger] lines[j]),
    ensures
        k <= first_blank(lines) <= lines.len(),
    decreases lines.len(),
{
    if lines.len() > 0 && !is_blank(lines[0]) {
        assert forall|j: int| 0 <= j < k - 1 implies !is_blank(#[trigger] lines.drop_first()[j]) by {
            assert(lines.drop_first()[j] == lines[j + 1]);
        }
        if k > 0 {
            lemma_first_blank_bound(lines.drop_first(), k - 1);
        } else {
            lemma_first_blank_bound(lines.drop_first(), 0);
        }
    }
}

impl vstd::std_specs::convert::FromSpecImpl<&Vec<(&str, &str)>> for Headers {
    open spec fn obeys_from_spec() -> bool {
        false
    }

    open spec fn from_spec(v: &Vec<(&str, &str)>) -> Headers {
        arbitrary()
    }
}

/// The view of a list of string pairs.
pub open spec fn pairs_view(v: Seq<(&str, &str)>) -> Seq<(Seq<char>, Seq<char>)> {
    v.map_values(|p: (&str, &str)| (p.0@, p.1@))
}

impl From<&Vec<(&str, &str)>> for Headers {
    /// The headers that inserting the pairs in order gives.
    fn from(v: &Vec<(&str, &str)>) -> (r: Headers)
        ensures
            r@ == from_pairs(pairs_view(v@)),
    {
        let mut h = Headers::new();
        let mut i: usize = 0;
        proof {
            assert(pairs_view(v@.subrange(0, 0)) =~= Seq::<(Seq<char>, Seq<char>)>::empty());
        }
        while i < v.len()
            invariant
                0 <= i <= v@.len(),
                h@ == from_pairs(pairs_view(v@.subrange(0, i as int))),
            decreases v@.len() - i,
        {
            let (k, val) = v[i];
            proof {
                let prev = pairs_view(v@.subrange(0, i as int));
                let next = pairs_view(v@.subrange(0, i + 1));
                assert(next.drop_last() =~= prev);
            }
            h.insert(String::from_str(k), String::from_str(val));
            i = i + 1;
        }
        proof {
            assert(v@.subrange(0, v@.len() as int) =~= v@);
        }
        h
    }
}

} // verus!
