//! A basic DPLL-based SAT solver.
//!
//! Takes formulae in conjunctive normal form and attempts to find a
//! satisfying assignment, using watched literals for unit propagation,
//! pure-literal elimination, and chronological backtracking.

pub mod errors;
pub mod formula;
pub mod literals;
pub mod solver;

pub use errors::LitError;
pub use formula::{Assignment, Clause, Formula};
pub use literals::{Lit, Var, MAX_VAR_INDEX};
pub use solver::{solve, ClauseState, Context, LitPolarities, PropagateOutcome};
