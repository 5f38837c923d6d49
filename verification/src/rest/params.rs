//! The path parameters captured for a request.
use vstd::prelude::*;

use crate::strmap::{pair_views, seq_pairs_map, StrMap};

verus! {

/// Captured path parameters, by name.
#[derive(Clone, Debug)]
pub struct PathParams {
    pub params: StrMap,
}

impl PathParams {
    /// The parameters captured by a match, in capture order; a name captured
    /// twice keeps its last value.
    pub fn from_captures(captures: Vec<(String, String)>) -> (p: PathParams)
        ensures
            p.params@ == seq_pairs_map(pair_views(captures@)),
    {
        let mut m = StrMap::new();
        let mut rest = crate::text::into_reversed(captures);
        let ghost orig = pair_views(captures@);
        let n0 = rest.len();
        let mut k: usize = 0;
        assert(orig.subrange(0, 0) =~= Seq::<(Seq<char>, Seq<char>)>::empty());
        while rest.len() > 0
            invariant
                n0 == orig.len(),
                rest@.len() + k == n0,
                forall|i: int| 0 <= i < rest@.len() ==> ((#[trigger] rest@[i]).0@, rest@[i].1@) == orig[n0 - 1 - i],
                m@ == seq_pairs_map(orig.subrange(0, k as int)),
            decreases rest@.len(),
        {
            let (key, value) = rest.pop().unwrap();
            assert((key@, value@) == orig[k as int]);
            m.insert(key, value);
            assert(orig.subrange(0, k + 1).drop_last() =~= orig.subrange(0, k as int));
            k = k + 1;
        }
        assert(orig.subrange(0, n0 as int) =~= orig);
        PathParams { params: m }
    }
}

} // verus!
