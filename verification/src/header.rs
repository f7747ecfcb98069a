//! The header mapping of a record: case-insensitive keys to text values.
//!
//! The mapping is viewed as a `Map` from normalized (lowercased) key text to
//! value text. Writing a key that is already present replaces its value:
//! the last write for a given normalized key wins.

use vstd::prelude::*;

use crate::case_string::CaseString;
use crate::text::lower_chars;

verus! {

/// The mapping denoted by a sequence of (key, value) writes, later writes
/// overwriting earlier ones.
pub closed spec fn entries_map(es: Seq<(CaseString, String)>) -> Map<Seq<char>, Seq<char>>
    decreases es.len(),
{
    if es.len() == 0 {
        Map::empty()
    } else {
        entries_map(es.drop_last()).insert(es.last().0@, es.last().1@)
    }
}

#[verifier::rlimit(50)]
proof fn lemma_entries_map_last_wins(es: Seq<(CaseString, String)>, k: Seq<char>)
    ensures
        entries_map(es).contains_key(k) <==> (exists|i: int|
            0 <= i < es.len() && es[i].0@ == k),
        forall|i: int|
            (0 <= i < es.len() && es[i].0@ == k && (forall|j: int|
                i < j < es.len() ==> es[j].0@ != k)) ==> entries_map(es).contains_key(k)
                && entries_map(es)[k] == es[i].1@,
    decreases es.len(),
{
    if es.len() > 0 {
        let d = es.drop_last();
        let m = entries_map(es);
        lemma_entries_map_last_wins(d, k);
        assert(forall|i: int| 0 <= i < d.len() ==> d[i] == es[i]);
        if es.last().0@ == k {
            assert(es[es.len() - 1].0@ == k);
            assert(m.contains_key(k));
            assert forall|i: int|
                (0 <= i < es.len() && es[i].0@ == k && (forall|j: int|
                    i < j < es.len() ==> es[j].0@ != k)) implies m.contains_key(k) && m[k]
                == es[i].1@ by {
                if i < es.len() - 1 {
                    assert(es[es.len() - 1].0@ != k);
                    assert(false);
                }
                assert(m[k] == es.last().1@);
            }
        } else {
            assert forall|i: int| 0 <= i < es.len() && es[i].0@ == k implies exists|q: int|
                0 <= q < d.len() && d[q].0@ == k by {
                assert(i < es.len() - 1);
                assert(d[i].0@ == k);
            }
            assert forall|i: int|
                (0 <= i < es.len() && es[i].0@ == k && (forall|j: int|
                    i < j < es.len() ==> es[j].0@ != k)) implies m.contains_key(k) && m[k]
                == es[i].1@ by {
                assert(i < es.len() - 1);
                assert(d[i].0@ == k);
                assert(forall|j: int| i < j < d.len() ==> d[j].0@ != k);
                assert(entries_map(d)[k] == d[i].1@);
            }
        }
    }
}

/// Record header fields, looked up by case-insensitive key.
pub struct HeaderMap {
    entries: Vec<(CaseString, String)>,
}

impl View for HeaderMap {
    type V = Map<Seq<char>, Seq<char>>;

    closed spec fn view(&self) -> Map<Seq<char>, Seq<char>> {
        entries_map(self.entries@)
    }
}

impl HeaderMap {
    /// An empty header mapping.
    pub fn new() -> (r: HeaderMap)
        ensures
            r@ == Map::<Seq<char>, Seq<char>>::empty(),
    {
        HeaderMap { entries: Vec::new() }
    }

    /// Write a field, overwriting any prior value for the same key.
    pub fn insert(&mut self, k: CaseString, v: String)
        ensures
            final(self)@ == old(self)@.insert(k@, v@),
    {
        proof {
            assert(self.entries@.push((k, v)).drop_last() =~= self.entries@);
        }
        self.entries.push((k, v));
    }

    /// Look the key up; the answer depends only on the key's normalized form.
    pub fn get(&self, key: &CaseString) -> (r: Option<&String>)
        ensures
            match r {
                Some(v) => self@.contains_key(key@) && v@ == self@[key@],
                None => !self@.contains_key(key@),
            },
    {
        proof {
            lemma_entries_map_last_wins(self.entries@, key@);
        }
        let n = self.entries.len();
        let mut i: usize = n;
        loop
            invariant
                i <= n,
                n == self.entries@.len(),
                forall|j: int| i <= j < n ==> self.entries@[j].0@ != key@,
                entries_map(self.entries@).contains_key(key@) <==> (exists|q: int|
                    0 <= q < n && self.entries@[q].0@ == key@),
                forall|q: int|
                    (0 <= q < n && self.entries@[q].0@ == key@ && (forall|j: int|
                        q < j < n ==> self.entries@[j].0@ != key@)) ==> entries_map(
                        self.entries@,
                    ).contains_key(key@) && entries_map(self.entries@)[key@]
                        == self.entries@[q].1@,
            decreases i,
        {
            if i == 0 {
                return None;
            }
            i = i - 1;
            let e = &self.entries[i];
            if e.0 == *key {
                return Some(&e.1);
            }
        }
    }
}

/// What a lookup by a text key answers: the entry stored under the
/// normalized form of that text, if any.
pub open spec fn lookup(h: Map<Seq<char>, Seq<char>>, name: Seq<char>) -> Option<Seq<char>> {
    if h.contains_key(lower_chars(name)) {
        Some(h[lower_chars(name)])
    } else {
        None
    }
}

/// Header lookups are case-insensitive: two key texts that agree up to
/// ASCII case always answer the same value.
pub proof fn lemma_lookup_case_insensitive(
    h: Map<Seq<char>, Seq<char>>,
    a: Seq<char>,
    b: Seq<char>,
)
    requires
        lower_chars(a) == lower_chars(b),
    ensures
        lookup(h, a) == lookup(h, b),
{
}

} // verus!
