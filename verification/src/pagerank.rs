use vstd::prelude::*;

verus! {

/// PageRank by power iteration with teleportation.
#[derive(Clone, Debug)]
pub struct PageRank;

impl PageRank {
    /// The ranker (it holds no state).
    pub fn new() -> (p: Self)
        ensures
            p == PageRank,
    {
        PageRank
    }
}

} // verus!
