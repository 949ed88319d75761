//! Parse errors.
//!
//! Errors are values, never panics. Wherever possible an error carries the
//! byte position at which the scanner stopped (or an anchor such as the
//! decimal point) together with a short static message.

use vstd::prelude::*;

verus! {

/// Why a parse failed.
#[derive(Clone, Copy, Debug, PartialEq, Eq)]
pub enum ParseError {
    /// The input was empty.
    Empty,
    /// The input violated the grammar at the given byte position.
    Syntax(usize, &'static str),
    /// No valid time unit was found at the given byte position.
    TimeUnit(usize, &'static str),
    /// The exponent exceeded the configured maximum.
    PositiveExponentOverflow,
    /// The exponent fell below the configured minimum.
    NegativeExponentOverflow,
    /// The input denoted a negative duration but negative durations were not
    /// allowed.
    NegativeNumber,
    /// The input was negative infinity.
    NegativeInfinity,
}

impl ParseError {
    /// True of a syntax error anchored at byte position `pos`.
    pub open spec fn is_syntax_at(self, pos: int) -> bool {
        match self {
            ParseError::Syntax(p, _) => p == pos,
            _ => false,
        }
    }

    /// True of a time-unit error anchored at byte position `pos`.
    pub open spec fn is_time_unit_at(self, pos: int) -> bool {
        match self {
            ParseError::TimeUnit(p, _) => p == pos,
            _ => false,
        }
    }
}

} // verus!
