//! Failure kinds reported by the solver.

use vstd::prelude::*;

verus! {

/// Why a request could not be solved.
#[derive(Clone, Copy, Debug, PartialEq, Eq, Structural)]
pub enum ErrorKind {
    /// The team count is zero or not one the entry point accepts.
    InvalidTeamCount,
    /// The number of values is not a multiple of the team count, does not match
    /// the announced size, or lies outside the supported range.
    SizeMismatch,
    /// The search ended without a complete assignment.
    NoSolution,
}

} // verus!
