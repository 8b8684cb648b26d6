//! The CDCL solver: state and invariants, assignment and backjumping,
//! watched-literal propagation, conflict analysis, and the driver loop.

pub mod analysis;
pub mod base;
pub mod mutation;
pub mod config;
pub mod fixing;
pub mod ingest;
pub mod laws;
pub mod propagation;
pub mod reduction;
pub mod solves;
pub mod soundness;
pub mod stats;
pub mod watching;

pub use crate::solve::base::{Solve, SolveError, SolveOk, SolveStatus};
pub use crate::solve::config::SolveConfig;
pub use crate::solve::solves::SolveResult;
pub use crate::solve::stats::SolveStats;
