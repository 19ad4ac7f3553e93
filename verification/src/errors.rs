//! The reasons a timestamp or span can be rejected.

use vstd::prelude::*;

verus! {

/// Why a piece of input text was rejected.
#[derive(Clone, Copy, Debug, PartialEq, Eq, Structural)]
pub enum ParseError {
    /// The text matches none of the timestamp formats.
    NotATimestamp,
    /// The text matches a timestamp format, but the total number of seconds
    /// does not fit in 32 bits.
    TooLarge,
    /// A span needs a `-` between its two timestamps and the text has none.
    NoDash,
    /// Both timestamps of a span parsed, but the end lies before the start.
    EndBeforeStart,
}

impl ParseError {
    /// A human-readable description of the error.
    pub fn message(&self) -> (r: &'static str)
        ensures
            *self is NotATimestamp ==> r@ == "not a valid timestamp"@,
            *self is TooLarge ==> r@ == "timestamp too large"@,
            *self is NoDash ==> r@ == "doesn't contain a dash"@,
            *self is EndBeforeStart ==> r@ == "end is before start"@,
    {
        match self {
            ParseError::NotATimestamp => "not a valid timestamp",
            ParseError::TooLarge => "timestamp too large",
            ParseError::NoDash => "doesn't contain a dash",
            ParseError::EndBeforeStart => "end is before start",
        }
    }
}

} // verus!
