//! A fluent builder for [`DurationParser`].
//!
//! The builder collects a choice of time units and a configuration, and
//! hands a ready parser out. It is more ergonomic than mutating a parser
//! directly when one parser is used for many inputs.

use vstd::prelude::*;
use crate::config::{Config, Delimiter};
use crate::parse::Parser;
use crate::standard::{DurationParser, TimeUnits};
use crate::time::TimeUnit;

verus! {

/// Which set of standard time units the built parser recognizes.
#[derive(Clone, Copy, Debug, PartialEq, Eq)]
pub enum TimeUnitsChoice<'a> {
    /// Nanoseconds through weeks.
    Default,
    /// Every standard unit.
    All,
    /// No units at all.
    NoUnits,
    /// Exactly the listed units.
    Custom(&'a [TimeUnit]),
}

/// A fluent way to put a [`DurationParser`] together.
#[derive(Clone, Copy, Debug, PartialEq, Eq)]
pub struct DurationParserBuilder<'a> {
    pub time_units_choice: TimeUnitsChoice<'a>,
    pub config: Config<'a>,
}

impl<'a> DurationParserBuilder<'a> {
    /// Start with no time units and the default configuration.
    pub fn new() -> (r: Self)
        ensures
            r.time_units_choice == TimeUnitsChoice::<'a>::NoUnits,
            r.config == Config::<'a>::spec_default(),
    {
        DurationParserBuilder { time_units_choice: TimeUnitsChoice::NoUnits, config: Config::new() }
    }

    /// Build with the default time units (nanoseconds through weeks).
    pub fn default_time_units(self) -> (r: Self)
        ensures
            r == (DurationParserBuilder { time_units_choice: TimeUnitsChoice::Default, ..self }),
    {
        DurationParserBuilder { time_units_choice: TimeUnitsChoice::Default, ..self }
    }

    /// Build with every standard time unit.
    pub fn all_time_units(self) -> (r: Self)
        ensures
            r == (DurationParserBuilder { time_units_choice: TimeUnitsChoice::All, ..self }),
    {
        DurationParserBuilder { time_units_choice: TimeUnitsChoice::All, ..self }
    }

    /// Build with a custom set of time units.
    pub fn custom_time_units(self, time_units: &'a [TimeUnit]) -> (r: Self)
        ensures
            r == (DurationParserBuilder {
                time_units_choice: TimeUnitsChoice::Custom(time_units),
                ..self
            }),
    {
        DurationParserBuilder { time_units_choice: TimeUnitsChoice::Custom(time_units), ..self }
    }

    /// Set the unit assumed when the input names none.
    pub fn default_unit(self, unit: TimeUnit) -> (r: Self)
        ensures
            r == (DurationParserBuilder {
                config: Config { default_unit: unit, ..self.config },
                ..self
            }),
    {
        DurationParserBuilder { config: Config { default_unit: unit, ..self.config }, ..self }
    }

    /// Allow runs of delimiter bytes between the number and the unit.
    pub fn allow_delimiter(self, delimiter: Delimiter) -> (r: Self)
        ensures
            r == (DurationParserBuilder {
                config: Config { allow_delimiter: Some(delimiter), ..self.config },
                ..self
            }),
    {
        DurationParserBuilder {
            config: Config { allow_delimiter: Some(delimiter), ..self.config },
            ..self
        }
    }

    /// Reject an exponent part.
    pub fn disable_exponent(self) -> (r: Self)
        ensures
            r == (DurationParserBuilder {
                config: Config { disable_exponent: true, ..self.config },
                ..self
            }),
    {
        DurationParserBuilder {
            config: Config { disable_exponent: true, ..self.config },
            ..self
        }
    }

    /// Reject a fraction part.
    pub fn disable_fraction(self) -> (r: Self)
        ensures
            r == (DurationParserBuilder {
                config: Config { disable_fraction: true, ..self.config },
                ..self
            }),
    {
        DurationParserBuilder {
            config: Config { disable_fraction: true, ..self.config },
            ..self
        }
    }

    /// Reject the infinity tokens.
    pub fn disable_infinity(self) -> (r: Self)
        ensures
            r == (DurationParserBuilder {
                config: Config { disable_infinity: true, ..self.config },
                ..self
            }),
    {
        DurationParserBuilder {
            config: Config { disable_infinity: true, ..self.config },
            ..self
        }
    }

    /// Allow a bare time unit without a number.
    pub fn number_is_optional(self) -> (r: Self)
        ensures
            r == (DurationParserBuilder {
                config: Config { number_is_optional: true, ..self.config },
                ..self
            }),
    {
        DurationParserBuilder {
            config: Config { number_is_optional: true, ..self.config },
            ..self
        }
    }

    /// Accept several durations in one input, separated by runs of
    /// `delimiter` bytes, and sum them with saturation.
    pub fn parse_multiple(self, delimiter: Delimiter) -> (r: Self)
        ensures
            r == (DurationParserBuilder {
                config: Config {
                    parse_multiple_delimiter: Some(delimiter),
                    ..self.config
                },
                ..self
            }),
    {
        DurationParserBuilder {
            config: Config { parse_multiple_delimiter: Some(delimiter), ..self.config },
            ..self
        }
    }

    /// Build the parser.
    pub fn build(&self) -> (r: DurationParser<'a>)
        ensures
            r.inner.config == self.config,
            r.time_units.units@ == match self.time_units_choice {
                TimeUnitsChoice::Default => seq![
                    TimeUnit::NanoSecond,
                    TimeUnit::MicroSecond,
                    TimeUnit::MilliSecond,
                    TimeUnit::Second,
                    TimeUnit::Minute,
                    TimeUnit::Hour,
                    TimeUnit::Day,
                    TimeUnit::Week,
                ],
                TimeUnitsChoice::All => seq![
                    TimeUnit::NanoSecond,
                    TimeUnit::MicroSecond,
                    TimeUnit::MilliSecond,
                    TimeUnit::Second,
                    TimeUnit::Minute,
                    TimeUnit::Hour,
                    TimeUnit::Day,
                    TimeUnit::Week,
                    TimeUnit::Month,
                    TimeUnit::Year,
                ],
                TimeUnitsChoice::NoUnits => Seq::<TimeUnit>::empty(),
                TimeUnitsChoice::Custom(units) => units@,
            },
    {
        let parser = Parser::with_config(self.config);
        match self.time_units_choice {
            TimeUnitsChoice::Default => DurationParser {
                time_units: TimeUnits::with_default_time_units(),
                inner: parser,
            },
            TimeUnitsChoice::All => DurationParser {
                time_units: TimeUnits::with_all_time_units(),
                inner: parser,
            },
            TimeUnitsChoice::NoUnits => DurationParser { time_units: TimeUnits::new(), inner: parser },
            TimeUnitsChoice::Custom(time_units) => DurationParser {
                time_units: TimeUnits::with_time_units(time_units),
                inner: parser,
            },
        }
    }
}

impl<'a> Default for DurationParserBuilder<'a> {
    /// Same as [`DurationParserBuilder::new`].
    fn default() -> (r: Self)
        ensures
            r.time_units_choice == TimeUnitsChoice::<'a>::NoUnits,
            r.config == Config::<'a>::spec_default(),
    {
        DurationParserBuilder::new()
    }
}

} // verus!
