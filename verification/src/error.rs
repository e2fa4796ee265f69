//! What can go wrong, by kind.

use vstd::prelude::*;

verus! {

/// What a lookup was after when it found nothing.
#[derive(Debug, Clone, Copy, PartialEq, Eq, Structural)]
pub enum Missing {
    Ticket,
    Dependency,
    Parent,
}

/// Why an input was turned down.
#[derive(Debug, Clone, Copy, PartialEq, Eq, Structural)]
pub enum Invalid {
    /// The text names no status.
    Status,
    /// The text names no ticket type.
    Type,
    /// Nothing but white space was given where a title and body were expected.
    EmptyInput,
    /// The text does not start with a heading line.
    MissingTitle,
    /// The dependency is already listed.
    DuplicateDependency,
    /// The dependency to remove is not listed.
    UnknownDependency,
    /// A ticket cannot wait for itself.
    SelfDependency,
    /// The note is empty.
    EmptyNote,
    /// The calendar does not reach the time of the note.
    Timestamp,
}

/// Why a document is no ticket record.
#[derive(Debug, Clone, Copy, PartialEq, Eq, Structural)]
pub enum Malformed {
    /// The document does not begin with the header delimiter.
    MissingHeader,
    /// The header is never closed.
    UnclosedHeader,
    /// The header names no id.
    MissingId,
    /// The header does not say when the ticket was made.
    MissingCreated,
    /// The header names a status that there is not.
    UnknownStatus,
    /// The header names a type that there is not.
    UnknownType,
    /// The header cannot be written: it would be cut short or run on when read.
    UnfitHeader,
    /// The title cannot be written: it is empty, has white space at an end, or
    /// takes more than a line.
    UnfitTitle,
}

/// An error of the tracker.
#[derive(Debug, Clone, Copy, PartialEq, Eq, Structural)]
pub enum Error {
    NotFound(Missing),
    AmbiguousReference { matches: usize },
    InvalidInput(Invalid),
    Parse(Malformed),
    /// The parent has as many children as can be numbered.
    ChildLimit,
    /// The step needs to be confirmed and was not.
    NotConfirmed,
}

} // verus!
