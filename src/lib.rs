//! Assigns interval demands ("terms") to interchangeable resources ("items")
//! so that no item holds two overlapping terms, or shows that no such
//! assignment exists.
//!
//! - `state`: the partial assignment and its per-item index.
//! - `search`: forward checking and the hybrid parallel/sequential backtracking.
//! - `problem`: terms, the conflict matrix, item lookup, locking and ordering.
//! - `engine`: one solve, from input lists to an [`Outcome`].

pub mod state;
pub mod search;
pub mod problem;
pub mod engine;

pub use engine::{solve, solve_with_depth, PARALLEL_DEPTH};
pub use problem::{Assignment, Outcome, Term};
