//! Time units and multipliers.
//!
//! Every time unit is equivalent to an integer number of seconds times a
//! power of ten: nanoseconds are `1 * 10^-9` seconds, minutes are `60 * 10^0`
//! seconds, and so on. A [`Multiplier`] carries such a pair `(m, e)` denoting
//! `m * 10^e`; the evaluator folds the power of ten into the decimal exponent
//! of the parsed number and applies the integer part as a scale.

use vstd::prelude::*;

verus! {

/// The time units a parser can recognize.
#[derive(Clone, Copy, Debug, PartialEq, Eq, Structural)]
pub enum TimeUnit {
    NanoSecond,
    MicroSecond,
    MilliSecond,
    Second,
    Minute,
    Hour,
    Day,
    Week,
    Month,
    Year,
}

/// The unit a parser falls back to when the input names none.
pub const DEFAULT_TIME_UNIT: TimeUnit = TimeUnit::Second;

/// A value of the form `m * 10^e`: an integer scale together with a decimal
/// exponent. Multipliers compose componentwise (scales multiply, exponents
/// add).
#[derive(Clone, Copy, Debug, PartialEq, Eq, Structural)]
pub struct Multiplier(pub u32, pub i16);

impl Default for TimeUnit {
    /// The default unit is one second.
    fn default() -> (r: Self)
        ensures
            r == TimeUnit::Second,
    {
        TimeUnit::Second
    }
}

impl TimeUnit {
    /// The equivalence of this unit in seconds, as `m * 10^e`.
    pub open spec fn spec_multiplier(self) -> Multiplier {
        match self {
            TimeUnit::NanoSecond => Multiplier(1, -9i16),
            TimeUnit::MicroSecond => Multiplier(1, -6i16),
            TimeUnit::MilliSecond => Multiplier(1, -3i16),
            TimeUnit::Second => Multiplier(1, 0),
            TimeUnit::Minute => Multiplier(60, 0),
            TimeUnit::Hour => Multiplier(3600, 0),
            TimeUnit::Day => Multiplier(86400, 0),
            TimeUnit::Week => Multiplier(604800, 0),
            TimeUnit::Month => Multiplier(2_629_800, 0),  // 1/12 year
            TimeUnit::Year => Multiplier(31_557_600, 0),  // 365.25 days
        }
    }

    /// How many seconds one of this unit lasts, as an integer times a power
    /// of ten.
    pub fn multiplier(&self) -> (r: Multiplier)
        ensures
            r == self.spec_multiplier(),
    {
        match self {
            TimeUnit::NanoSecond => Multiplier(1, -9i16),
            TimeUnit::MicroSecond => Multiplier(1, -6i16),
            TimeUnit::MilliSecond => Multiplier(1, -3i16),
            TimeUnit::Second => Multiplier(1, 0),
            TimeUnit::Minute => Multiplier(60, 0),
            TimeUnit::Hour => Multiplier(3600, 0),
            TimeUnit::Day => Multiplier(86400, 0),
            TimeUnit::Week => Multiplier(604800, 0),
            TimeUnit::Month => Multiplier(2_629_800, 0),
            TimeUnit::Year => Multiplier(31_557_600, 0),
        }
    }
}

/// A table of time-unit identifiers.
///
/// A parser looks the identifier it scanned up in such a table; the table
/// decides which alias set (short `s`, long `seconds`, ...) is recognized.
/// Lookup is case-sensitive and works on the raw identifier bytes.
pub trait TimeUnitsLike {
    /// The table's content as a mathematical lookup function.
    spec fn spec_get(&self, identifier: Seq<u8>) -> Option<(TimeUnit, Multiplier)>;

    /// Whether the table holds no identifiers at all.
    spec fn spec_is_empty(&self) -> bool;

    /// True when the table holds no identifiers at all.
    fn is_empty(&self) -> (r: bool)
        ensures
            r == self.spec_is_empty(),
    ;

    /// Look an identifier up, yielding its unit and an extra multiplier.
    fn get(&self, identifier: &[u8]) -> (r: Option<(TimeUnit, Multiplier)>)
        ensures
            r == self.spec_get(identifier@),
            self.spec_is_empty() ==> r is None,
    ;
}

} // verus!
