use vstd::prelude::*;

verus! {

/// Everything that can abort parsing or a run.
#[derive(Debug, Clone, Copy, PartialEq, Eq, Structural)]
pub enum Error {
    /// Reading a byte failed for a reason other than the end of the stream.
    InputFailure,
    /// Writing a byte failed.
    OutputFailure,
    /// A `]` appeared while no loop was open.
    UnexpectedClosingBracket,
    /// The text ended while a loop was still open.
    MissingClosingBracket,
}

} // verus!
