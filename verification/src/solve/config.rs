//! Knobs of the solver.

use vstd::prelude::*;

verus! {

/// Configuration of one solve.
#[derive(Clone, Copy, Debug, PartialEq, Eq, Structural)]
pub struct SolveConfig {
    /// On unsatisfiability, make the unsatisfiable core available.
    pub core: bool,
    /// How many iterations of the main loop to run before giving up with an
    /// unknown result.
    pub budget: usize,
    /// A learned clause whose literal block distance exceeds this strength is
    /// dropped when the reduction policy fires.
    pub min_glue_strength: usize,
    /// The reduction policy fires after this many conflicts since the last
    /// reduction.
    pub forget_interval: usize,
    /// All activities are halved after every such number of conflicts.
    pub decay_interval: usize,
}

impl Default for SolveConfig {
    /// No core, a large budget, and moderate retention and decay intervals.
    fn default() -> (c: SolveConfig)
        ensures
            c == (SolveConfig {
                core: false,
                budget: 10_000_000,
                min_glue_strength: 2,
                forget_interval: 512,
                decay_interval: 128,
            }),
    {
        SolveConfig {
            core: false,
            budget: 10_000_000,
            min_glue_strength: 2,
            forget_interval: 512,
            decay_interval: 128,
        }
    }
}

} // verus!
