//! A CDCL (conflict-driven clause learning) solver for propositional
//! satisfiability of formulas in conjunctive normal form.
//!
//! The solver reads a formula (optionally from DIMACS text), decides
//! satisfiability with a two-watched-literal propagation engine, first-UIP
//! conflict analysis, non-chronological backjumping, an LBD-based retention
//! policy for learned clauses and an activity heuristic for branching.
//! On satisfiable inputs it produces a model proved to satisfy every input
//! clause; on unsatisfiable inputs the answer comes with a proof that no
//! assignment satisfies the input, and optionally an unsatisfiable core.

pub mod clause;
pub mod dimacs;
pub mod formula;
pub mod learnt_store;
pub mod literal;
pub mod semantics;
pub mod solve;
pub mod stored_clause;
pub mod valuation;
pub mod variable;
