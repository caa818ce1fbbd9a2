//! The ways in which the library refuses.

use vstd::prelude::*;

verus! {

/// Why an operation was refused.
#[derive(Debug, Clone, Copy, PartialEq, Eq, Structural)]
pub enum ScheduleError {
    /// The project is not a well-formed network.
    SchemaViolation,
    /// An activity was to be placed before one of its predecessors.
    NotPlanned,
    /// No admissible move was found within the attempts allowed.
    NoMove,
    /// A search parameter lies outside its range.
    ParameterOutOfRange,
}

} // verus!
