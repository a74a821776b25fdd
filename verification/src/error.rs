//! The ways in which parsing an event can fail.

use vstd::prelude::*;

verus! {

/// Why a line of text could not be turned into an event.
#[derive(Debug, Clone, Copy, PartialEq, Eq, Structural)]
pub enum EventParseError {
    /// The text holds no date expression at all. The rest of it may be fine.
    MissingTime,
    /// A date or time was written out in numbers, but no such day or time of
    /// day exists.
    InvalidTime,
    /// A relative date could not be resolved because the calendar ends before
    /// the day it points at.
    AmbiguousTime,
    /// A date was found, but no text in front of it that could serve as the
    /// summary.
    MissingSummary,
    /// Kept for durations, which are not parsed yet.
    AmbiguousDuration,
}

impl EventParseError {
    /// The text of the message that describes this error.
    pub open spec fn message_text(self) -> Seq<char> {
        match self {
            EventParseError::MissingTime => "Missing time"@,
            EventParseError::InvalidTime => "Invalid time"@,
            EventParseError::AmbiguousTime => "Ambiguous time"@,
            EventParseError::MissingSummary => "Missing summary"@,
            EventParseError::AmbiguousDuration => "Ambiguous duration"@,
        }
    }

    /// A short message that describes this error.
    pub fn message(&self) -> (r: &'static str)
        ensures
            r@ == self.message_text(),
    {
        match self {
            EventParseError::MissingTime => "Missing time",
            EventParseError::InvalidTime => "Invalid time",
            EventParseError::AmbiguousTime => "Ambiguous time",
            EventParseError::MissingSummary => "Missing summary",
            EventParseError::AmbiguousDuration => "Ambiguous duration",
        }
    }
}

} // verus!
