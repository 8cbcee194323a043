//! The ways in which solving can fail.

use vstd::prelude::*;

verus! {

/// Why a solve attempt ended without a solution.
#[derive(Debug, Clone, Copy, PartialEq, Eq, Structural)]
pub enum SolveError {
    /// A forced assignment met a cell that holds another digit or that no
    /// longer lists the digit: the grid has no solution.
    Contradiction,
    /// Propagation stalled on an unfinished grid in which no digit has
    /// exactly two places left in any group, so there is nothing to guess on.
    InternalInvariantViolation,
}

} // verus!
