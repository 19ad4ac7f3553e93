//! Spans: an ordered pair of timestamps marking one extraction window.
//!
//! A span is written `start-end`. The text is split at its *last* dash, so
//! the end timestamp can never contain one. Both sides must parse as
//! timestamps and the start may not lie after the end.

use vstd::prelude::*;

use crate::digits::last_pos;
use crate::digits::lemma_last_pos_is;
use crate::digits::lemma_last_pos_none;
use crate::errors::ParseError;
use crate::timestamp::Timestamp;
use crate::timestamp::ts_fits;
use crate::timestamp::ts_secs;
use crate::timestamp::ts_valid;

verus! {

/// The text before the last dash.
pub open spec fn span_left(s: Seq<u8>) -> Seq<u8> {
    s.take(last_pos(s, 45u8))
}

/// The text after the last dash.
pub open spec fn span_right(s: Seq<u8>) -> Seq<u8> {
    s.skip(last_pos(s, 45u8) + 1)
}

/// `s` is a well-formed span: it has a dash, both sides are timestamps that
/// fit, and the start does not lie after the end.
pub open spec fn span_ok(s: Seq<u8>) -> bool {
    last_pos(s, 45u8) >= 0 && ts_fits(span_left(s)) && ts_fits(span_right(s))
        && Timestamp::of_text(span_left(s)).le_spec(Timestamp::of_text(span_right(s)))
}

/// The span a well-formed piece of text denotes.
pub open spec fn span_of(s: Seq<u8>) -> Span {
    Span {
        start: Timestamp::of_text(span_left(s)),
        end: Timestamp::of_text(span_right(s)),
    }
}

/// The error reported for text that is not a well-formed span. The start is
/// tried before the end, as the failures are reported.
pub open spec fn span_err(s: Seq<u8>) -> ParseError {
    if last_pos(s, 45u8) < 0 {
        ParseError::NoDash
    } else if !ts_valid(span_left(s)) {
        ParseError::NotATimestamp
    } else if ts_secs(span_left(s)) > u32::MAX {
        ParseError::TooLarge
    } else if !ts_valid(span_right(s)) {
        ParseError::NotATimestamp
    } else if ts_secs(span_right(s)) > u32::MAX {
        ParseError::TooLarge
    } else {
        ParseError::EndBeforeStart
    }
}

/// An inclusive extraction window: `start` comes no later than `end`.
#[derive(Clone, Copy, Debug, PartialEq, Eq, Structural)]
pub struct Span {
    pub start: Timestamp,
    pub end: Timestamp,
}

impl Span {
    /// The invariant every constructed span satisfies.
    pub open spec fn wf(self) -> bool {
        self.start.wf() && self.end.wf() && self.start.le_spec(self.end)
    }

    /// Lexicographic order on `(start, end)`.
    pub open spec fn le_spec(self, other: Span) -> bool {
        self.start.lt_spec(other.start) || (self.start == other.start && self.end.le_spec(
            other.end,
        ))
    }

    /// Builds a span, rejecting an end that lies before the start.
    pub fn new(start: Timestamp, end: Timestamp) -> (r: Option<Span>)
        requires
            start.wf(),
            end.wf(),
        ensures
            match r {
                Some(sp) => sp.start == start && sp.end == end && sp.wf(),
                None => !start.le_spec(end),
            },
            start.le_spec(end) ==> r is Some,
    {
        if start.le(&end) {
            Some(Span { start, end })
        } else {
            None
        }
    }

    /// Whether `self` orders no later than `other`.
    pub fn le(&self, other: &Span) -> (r: bool)
        ensures
            r == self.le_spec(*other),
    {
        self.start.lt(&other.start) || (self.start.seconds == other.start.seconds
            && self.start.milliseconds == other.start.milliseconds && self.end.le(&other.end))
    }

    /// Parses a textual span: the text up to the last dash and the text
    /// after it as timestamps, with the start required not to lie after the
    /// end. Fails exactly as [`span_err`] describes.
    pub fn parse(s: &[u8]) -> (r: Result<Span, ParseError>)
        ensures
            match r {
                Ok(sp) => span_ok(s@) && sp == span_of(s@) && sp.wf(),
                Err(e) => !span_ok(s@) && e == span_err(s@),
            },
    {
        let n = s.len();
        let mut i: usize = 0;
        let mut dash: usize = 0;
        let mut found = false;
        while i < n
            invariant
                i <= n,
                n == s@.len(),
                found ==> dash < i && s@[dash as int] == 45u8 && forall|k: int|
                    dash < k < i ==> s@[k] != 45u8,
                !found ==> forall|k: int| 0 <= k < i ==> s@[k] != 45u8,
            decreases n - i,
        {
            if s[i] == 45u8 {
                dash = i;
                found = true;
            }
            i = i + 1;
        }
        if !found {
            proof {
                lemma_last_pos_none(s@, 45u8);
            }
            return Err(ParseError::NoDash);
        }
        proof {
            lemma_last_pos_is(s@, 45u8, dash as int);
            assert(s@.subrange(0, dash as int) =~= span_left(s@));
            assert(s@.subrange(dash as int + 1, n as int) =~= span_right(s@));
        }
        let start = match Timestamp::parse(&s[0..dash]) {
            Ok(t) => t,
            Err(e) => {
                return Err(e);
            },
        };
        let end = match Timestamp::parse(&s[dash + 1..n]) {
            Ok(t) => t,
            Err(e) => {
                return Err(e);
            },
        };
        if start.le(&end) {
            Ok(Span { start, end })
        } else {
            Err(ParseError::EndBeforeStart)
        }
    }
}

/// The order on spans is total: reflexive, antisymmetric, transitive, and
/// any two spans are comparable. It agrees with the lexicographic order on
/// `(start, end)` by construction.
pub proof fn lemma_span_order(a: Span, b: Span, c: Span)
    ensures
        a.le_spec(a),
        a.le_spec(b) || b.le_spec(a),
        a.le_spec(b) && b.le_spec(a) ==> a == b,
        a.le_spec(b) && b.le_spec(c) ==> a.le_spec(c),
{
}

} // verus!
