//! Parser configuration.
//!
//! A configuration is an immutable plain value constructed once (usually
//! through [`ConfigBuilder`]) and consulted by the scanner on every parse.
//! Delimiters are sets of ASCII bytes: any byte at or above `0x80` is never a
//! delimiter, which keeps multi-byte characters in the input intact.

use vstd::prelude::*;
use crate::time::{Multiplier, TimeUnit, DEFAULT_TIME_UNIT};

verus! {

/// A set of ASCII bytes accepted as delimiters, encoded as a 128-bit mask
/// with bit `b` standing for byte `b`.
#[derive(Clone, Copy, Debug, PartialEq, Eq, Structural)]
pub struct Delimiter(pub u128);

impl Delimiter {
    /// Whether `b` belongs to the set.
    pub open spec fn spec_matches(self, b: u8) -> bool {
        b < 128 && (self.0 >> (b as u128)) & 1 == 1
    }

    /// Test a byte for membership. Bytes at or above `0x80` never match.
    pub fn matches(&self, b: u8) -> (r: bool)
        ensures
            r == self.spec_matches(b),
    {
        b < 128 && (self.0 >> (b as u128)) & 1 == 1
    }

    /// The set holding the single byte `b`.
    pub fn of_byte(b: u8) -> (r: Delimiter)
        requires
            b < 128,
        ensures
            forall|c: u8| r.spec_matches(c) <==> c == b,
    {
        let r = Delimiter(1u128 << (b as u128));
        proof {
            assert forall|c: u8| r.spec_matches(c) <==> c == b by {
                assert(c < 128 && (1u128 << (b as u128)) >> (c as u128) & 1 == 1 <==> c == b)
                    by (bit_vector)
                    requires
                        b < 128,
                ;
            }
        }
        r
    }

    /// The ASCII whitespace set: space, tab, line feed, vertical tab, form
    /// feed and carriage return.
    pub fn whitespace() -> (r: Delimiter)
        ensures
            r == Delimiter(0x1_0000_3e00),
            forall|c: u8| r.spec_matches(c) <==> (c == 32 || 9 <= c <= 13),
    {
        let r = Delimiter(0x1_0000_3e00);
        proof {
            assert forall|c: u8| r.spec_matches(c) <==> (c == 32 || 9 <= c <= 13) by {
                assert(c < 128 && (0x1_0000_3e00u128 >> (c as u128)) & 1 == 1 <==> (c == 32 || 9
                    <= c <= 13)) by (bit_vector);
            }
        }
        r
    }
}

/// Everything a parser consults while scanning one input.
#[derive(Clone, Copy, Debug, PartialEq, Eq)]
pub struct Config<'a> {
    /// Bytes accepted (in a run) between the number and the time unit.
    pub allow_delimiter: Option<Delimiter>,
    /// The unit assumed when the input names none.
    pub default_unit: TimeUnit,
    /// An extra multiplier applied to every parsed value.
    pub default_multiplier: Multiplier,
    /// Reject an exponent part.
    pub disable_exponent: bool,
    /// Reject a fraction part.
    pub disable_fraction: bool,
    /// Reject the infinity tokens.
    pub disable_infinity: bool,
    /// Allow a bare time unit without a number (meaning one of that unit).
    pub number_is_optional: bool,
    /// The largest exponent the scanner accepts.
    pub max_exponent: i16,
    /// The smallest exponent the scanner accepts.
    pub min_exponent: i16,
    /// When set, the input may hold several durations separated by runs of
    /// these bytes; the results are summed with saturation.
    pub parse_multiple_delimiter: Option<Delimiter>,
    /// Literal words (e.g. `and`) accepted between two durations.
    pub parse_multiple_conjunctions: Option<&'a [&'a [u8]]>,
    /// Permit negative durations instead of failing on them.
    pub allow_negative: bool,
    /// When set, a trailing `ago` (after a run of these bytes) negates the
    /// duration.
    pub allow_ago: Option<Delimiter>,
}

impl<'a> Config<'a> {
    /// The default configuration: seconds, no delimiters, everything enabled,
    /// exponents bounded only by their 16-bit representation.
    pub fn new() -> (r: Self)
        ensures
            r == Config::<'a>::spec_default(),
    {
        Self {
            allow_delimiter: None,
            default_unit: DEFAULT_TIME_UNIT,
            default_multiplier: Multiplier(1, 0),
            disable_exponent: false,
            disable_fraction: false,
            number_is_optional: false,
            max_exponent: 32767,
            min_exponent: -32768i16,
            disable_infinity: false,
            parse_multiple_delimiter: None,
            parse_multiple_conjunctions: None,
            allow_negative: false,
            allow_ago: None,
        }
    }

    /// The value [`Config::new`] returns.
    pub open spec fn spec_default() -> Config<'a> {
        Config {
            allow_delimiter: None,
            default_unit: TimeUnit::Second,
            default_multiplier: Multiplier(1, 0),
            disable_exponent: false,
            disable_fraction: false,
            number_is_optional: false,
            max_exponent: 32767,
            min_exponent: -32768i16,
            disable_infinity: false,
            parse_multiple_delimiter: None,
            parse_multiple_conjunctions: None,
            allow_negative: false,
            allow_ago: None,
        }
    }

    /// Structurally well-formed: the exponent window is not empty.
    pub open spec fn wf(self) -> bool {
        self.min_exponent <= self.max_exponent
    }
}

impl<'a> Default for Config<'a> {
    /// Same as [`Config::new`].
    fn default() -> (r: Self)
        ensures
            r == Config::<'a>::spec_default(),
    {
        Config::new()
    }
}

/// A fluent way to put a [`Config`] together.
#[derive(Clone, Copy, Debug, PartialEq, Eq)]
pub struct ConfigBuilder<'a> {
    pub config: Config<'a>,
}

impl<'a> ConfigBuilder<'a> {
    /// Start from the default configuration.
    pub fn new() -> (r: Self)
        ensures
            r.config == Config::<'a>::spec_default(),
    {
        Self { config: Config::new() }
    }

    /// Hand the finished configuration out.
    pub fn build(self) -> (r: Config<'a>)
        ensures
            r == self.config,
    {
        self.config
    }

    /// Accept runs of `delimiter` bytes between the number and the unit.
    pub fn allow_delimiter(self, delimiter: Delimiter) -> (r: Self)
        ensures
            r.config == (Config { allow_delimiter: Some(delimiter), ..self.config }),
    {
        Self { config: Config { allow_delimiter: Some(delimiter), ..self.config } }
    }

    /// Assume `time_unit` when the input names no unit.
    pub fn default_unit(self, time_unit: TimeUnit) -> (r: Self)
        ensures
            r.config == (Config { default_unit: time_unit, ..self.config }),
    {
        Self { config: Config { default_unit: time_unit, ..self.config } }
    }

    /// Reject an exponent part.
    pub fn disable_exponent(self) -> (r: Self)
        ensures
            r.config == (Config { disable_exponent: true, ..self.config }),
    {
        Self { config: Config { disable_exponent: true, ..self.config } }
    }

    /// Reject a fraction part.
    pub fn disable_fraction(self) -> (r: Self)
        ensures
            r.config == (Config { disable_fraction: true, ..self.config }),
    {
        Self { config: Config { disable_fraction: true, ..self.config } }
    }

    /// Reject the infinity tokens.
    pub fn disable_infinity(self) -> (r: Self)
        ensures
            r.config == (Config { disable_infinity: true, ..self.config }),
    {
        Self { config: Config { disable_infinity: true, ..self.config } }
    }

    /// Allow a bare time unit without a number.
    pub fn number_is_optional(self) -> (r: Self)
        ensures
            r.config == (Config { number_is_optional: true, ..self.config }),
    {
        Self { config: Config { number_is_optional: true, ..self.config } }
    }

    /// Permit negative durations.
    pub fn allow_negative(self) -> (r: Self)
        ensures
            r.config == (Config { allow_negative: true, ..self.config }),
    {
        Self { config: Config { allow_negative: true, ..self.config } }
    }

    /// Accept several durations in one input, separated by runs of
    /// `delimiter` bytes and optionally one of the `conjunctions` words.
    pub fn parse_multiple(self, delimiter: Delimiter, conjunctions: Option<&'a [&'a [u8]]>) -> (r:
        Self)
        ensures
            r.config == (Config {
                parse_multiple_delimiter: Some(delimiter),
                parse_multiple_conjunctions: conjunctions,
                ..self.config
            }),
    {
        Self {
            config: Config {
                parse_multiple_delimiter: Some(delimiter),
                parse_multiple_conjunctions: conjunctions,
                ..self.config
            },
        }
    }

    /// Accept a trailing `ago` keyword (after a run of `delimiter` bytes)
    /// negating the duration.
    pub fn allow_ago(self, delimiter: Delimiter) -> (r: Self)
        ensures
            r.config == (Config { allow_ago: Some(delimiter), ..self.config }),
    {
        Self { config: Config { allow_ago: Some(delimiter), ..self.config } }
    }
}

impl<'a> Default for ConfigBuilder<'a> {
    /// Same as [`ConfigBuilder::new`].
    fn default() -> (r: Self)
        ensures
            r.config == Config::<'a>::spec_default(),
    {
        ConfigBuilder::new()
    }
}

} // verus!
