//! Verified solvers for a set of small text-puzzle pipelines.
//!
//! Each module parses a plain-text input format into typed records and
//! reduces them to a scalar answer.  Malformed input is reported through
//! [`SolveError`] rather than by panicking, and every solver's behaviour
//! is pinned down by its contract.
#![verifier::loop_isolation(false)]

use vstd::prelude::*;

pub mod calories;
pub mod overlap;
pub mod rps;
pub mod rucksack;
pub mod signal;
pub mod stacks;
pub mod text;

verus! {

/// The two failure classes of every solver: input outside the expected
/// shape, or a search that finds no satisfying position.
#[derive(Clone, Copy, PartialEq, Eq, Structural, Debug)]
pub enum SolveError {
    Malformed,
    NotFound,
}

} // verus!
