//! A small string-to-string map whose later insertions override earlier ones.
use vstd::prelude::*;

use crate::text::str_eq;

verus! {

/// Key/value pairs in insertion order; a key maps to the value of its last pair.
#[derive(Clone, Debug)]
pub struct StrMap {
    pub entries: Vec<(String, String)>,
}

/// The map described by a sequence of pairs, later pairs winning.
pub open spec fn seq_pairs_map(s: Seq<(Seq<char>, Seq<char>)>) -> Map<Seq<char>, Seq<char>>
    decreases s.len(),
{
    if s.len() == 0 {
        Map::empty()
    } else {
        seq_pairs_map(s.drop_last()).insert(s.last().0, s.last().1)
    }
}

pub open spec fn pair_views(s: Seq<(String, String)>) -> Seq<(Seq<char>, Seq<char>)> {
    s.map_values(|p: (String, String)| (p.0@, p.1@))
}

pub open spec fn pairs_map(s: Seq<(String, String)>) -> Map<Seq<char>, Seq<char>> {
    seq_pairs_map(pair_views(s))
}

impl View for StrMap {
    type V = Map<Seq<char>, Seq<char>>;

    open spec fn view(&self) -> Map<Seq<char>, Seq<char>> {
        pairs_map(self.entries@)
    }
}

impl StrMap {
    pub fn new() -> (m: StrMap)
        ensures
            m@ == Map::<Seq<char>, Seq<char>>::empty(),
    {
        StrMap { entries: Vec::new() }
    }

    /// Sets `key` to `value`, replacing any earlier value.
    pub fn insert(&mut self, key: String, value: String)
        ensures
            final(self)@ == old(self)@.insert(key@, value@),
    {
        let ghost before = self.entries@;
        self.entries.push((key, value));
        assert(pair_views(self.entries@).drop_last() =~= pair_views(before));
    }

    /// The value of `key`, if any.
    pub fn get(&self, key: &str) -> (r: Option<&String>)
        ensures
            match r {
                Some(v) => self@.contains_key(key@) && self@[key@] == v@,
                None => !self@.contains_key(key@),
            },
    {
        let mut i = self.entries.len();
        while i > 0
            invariant
                i <= self.entries@.len(),
                forall|j: int| i <= j < self.entries@.len() ==> self.entries@[j].0@ != key@,
            decreases i,
        {
            let e = &self.entries[i - 1];
            if str_eq(e.0.as_str(), key) {
                proof {
                    lemma_pairs_map_last_match(self.entries@, (i - 1) as int, key@);
                }
                return Some(&e.1);
            }
            i = i - 1;
        }
        proof {
            lemma_pairs_map_no_match(self.entries@, key@);
        }
        None
    }

    pub fn contains_key(&self, key: &str) -> (r: bool)
        ensures
            r == self@.contains_key(key@),
    {
        self.get(key).is_some()
    }
}

proof fn lemma_pairs_map_no_match(s: Seq<(String, String)>, k: Seq<char>)
    requires
        forall|j: int| 0 <= j < s.len() ==> s[j].0@ != k,
    ensures
        !pairs_map(s).contains_key(k),
    decreases s.len(),
{
    if s.len() > 0 {
        assert(pair_views(s).drop_last() =~= pair_views(s.drop_last()));
        lemma_pairs_map_no_match(s.drop_last(), k);
    }
}

proof fn lemma_pairs_map_last_match(s: Seq<(String, String)>, i: int, k: Seq<char>)
    requires
        0 <= i < s.len(),
        s[i].0@ == k,
        forall|j: int| i < j < s.len() ==> s[j].0@ != k,
    ensures
        pairs_map(s).contains_key(k),
        pairs_map(s)[k] == s[i].1@,
    decreases s.len(),
{
    assert(pair_views(s).drop_last() =~= pair_views(s.drop_last()));
    if i < s.len() - 1 {
        lemma_pairs_map_last_match(s.drop_last(), i, k);
    }
}

/// A lookup after an insertion of the same key gives the inserted value,
/// and leaves the other keys as they were.
pub proof fn law_get_after_insert(m: Map<Seq<char>, Seq<char>>, k: Seq<char>, v: Seq<char>, other: Seq<char>)
    ensures
        m.insert(k, v)[k] == v,
        other != k ==> (m.insert(k, v).contains_key(other) == m.contains_key(other)),
        other != k && m.contains_key(other) ==> m.insert(k, v)[other] == m[other],
{
}

} // verus!
