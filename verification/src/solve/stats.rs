//! Counters reported alongside a solve's result.

use vstd::prelude::*;

verus! {

#[derive(Clone, Copy, Debug, PartialEq, Eq, Structural)]
pub struct SolveStats {
    /// Iterations of the main loop.
    pub iterations: usize,
    /// Conflicts met.
    pub conflicts: usize,
    /// Times the reduction policy fired.
    pub forgets: usize,
}

impl SolveStats {
    pub fn new() -> (s: SolveStats)
        ensures
            s == (SolveStats { iterations: 0, conflicts: 0, forgets: 0 }),
    {
        SolveStats { iterations: 0, conflicts: 0, forgets: 0 }
    }
}

} // verus!
