//! The errors of the ledger.
use vstd::prelude::*;

verus! {

/// Everything that can go wrong in the ledger's logic.
#[derive(Debug, Clone, Copy, PartialEq, Eq, Structural)]
pub enum Main {
    /// A timestamp was not RFC 3339 text, or lies outside the range of
    /// instants that the ledger can hold.
    InvalidTimestamp,
    /// An entry's check-out lies before its check-in.
    CheckOutBeforeCheckIn,
    /// A line of the ledger holds no timestamp.
    EntryIncorrectNumberOfTokens,
    /// A paragraph of the ledger holds the wrong number of lines.
    EntryIncorrectNumberOfLines,
    /// Clocking out while no session is open.
    NotClockedIn,
    /// Clocking in while a session is already open.
    AlreadyClockedIn,
    /// A sum of durations does not fit in the duration type.
    DurationOverflow,
    /// A day whose bounds lie outside the range of instants.
    DateOutOfRange,
    /// A window whose end is not after its start.
    RangeStartPosition,
    /// A comment holds a line break.
    CommentWithNewlines,
    /// The open session runs into a slot that an earlier item has already
    /// classified.
    SessionOverlap,
    /// A date format string that the formatter refuses.
    Format,
}

} // verus!
