//! The decision logic of the solve-session layer: call-id allocation from an
//! explicitly owned counter, and the mapping of a finished or interrupted
//! search to the outcome delivered through the completion callback. The
//! session runner that owns the worker, the cancellation flag and the
//! callback lives outside the library and drives these functions.

use vstd::prelude::*;
use crate::solver::{Solution, UnsolvableReason};
pub use crate::solver::SolveOutcome;

verus! {

/// Identifies one solve request; never reused while the caller threads a
/// single counter through `create_solver_call_id`.
#[derive(Clone, Copy, Debug, PartialEq, Eq, Hash, Structural)]
pub struct SolverCallId(u64);

impl View for SolverCallId {
    type V = u64;

    closed spec fn view(&self) -> u64 {
        self.0
    }
}

impl SolverCallId {
    /// The numeric value of the id.
    pub fn value(&self) -> (v: u64)
        ensures
            v == self@,
    {
        self.0
    }
}

/// Allocate the next call id from the caller-owned counter. Successive
/// calls on one counter yield strictly increasing, therefore unique, ids.
pub fn create_solver_call_id(counter: &mut u64) -> (id: SolverCallId)
    requires
        *old(counter) < u64::MAX,
    ensures
        id@ == *old(counter),
        *final(counter) == *old(counter) + 1,
{
    let id = SolverCallId(*counter);
    *counter = *counter + 1;
    id
}

/// Map a finished search and the observed cancellation flag to the outcome
/// delivered through the completion callback: an observed interrupt wins
/// over any search result, and is never an error.
pub fn resolve_outcome(interrupted: bool, result: Result<Solution, UnsolvableReason>) -> (r:
    SolveOutcome)
    ensures
        interrupted ==> r == SolveOutcome::Cancelled,
        !interrupted ==> (result matches Ok(sol) ==> r == SolveOutcome::Solved(sol)),
        !interrupted ==> (result matches Err(e) ==> r == SolveOutcome::Unsolvable(e)),
{
    if interrupted {
        SolveOutcome::Cancelled
    } else {
        match result {
            Ok(sol) => SolveOutcome::Solved(sol),
            Err(e) => SolveOutcome::Unsolvable(e),
        }
    }
}

} // verus!
