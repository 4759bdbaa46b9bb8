//! The ways in which a reconstruction attempt ends without a map.

use vstd::prelude::*;

verus! {

/// Why one reconstruction attempt ended without a map.
#[derive(Clone, Copy, Debug, PartialEq, Eq, Structural)]
pub enum SolveError {
    /// A plan holds something that is neither a door nor a bracketed label.
    MalformedPlan,
    /// A trace does not hold one observation per step plus the initial one.
    ObservationLengthMismatch,
    /// No annealing run reached cost zero within its budget.
    SANotConverged,
    /// The base structure is not a usable transition function.
    BaseMapInconsistent,
    /// The layered search exhausted every branch.
    DFSNoSolution,
    /// The oracle rejected the submitted map.
    GuessIncorrect,
    /// A room count, a label or a trace length that the tables cannot hold.
    OutOfRange,
}

} // verus!
