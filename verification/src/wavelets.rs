use vstd::prelude::*;

verus! {

/// Heat-kernel wavelets on graphs.
#[derive(Clone, Debug)]
pub struct GraphWave;

impl GraphWave {
    /// The wavelet analyser (it holds no state).
    pub fn new() -> (w: Self)
        ensures
            w == GraphWave,
    {
        GraphWave
    }
}

} // verus!
