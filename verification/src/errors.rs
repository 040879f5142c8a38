use vstd::prelude::*;

verus! {

/// The errors that the scheduling core reports to its callers.  The process
/// never exits from here: the command-line layer decides what each one means.
#[derive(Clone, Copy, Debug, PartialEq, Eq, Structural)]
pub enum SrsError {
    /// A card with the same term already exists; nothing was changed.
    DuplicateTerm,
    /// A quiz was requested while no card is due.
    NoneDue,
    /// An exact batch size was requested and fewer cards are available.
    InsufficientDue,
    /// A replay seed is not a comma-joined list of numbers.
    ReplayMalformed,
    /// A replay seed names an index outside the current collection.
    ReplayOutOfRange,
    /// A persisted collection failed to parse.
    Corrupt,
}

} // verus!
