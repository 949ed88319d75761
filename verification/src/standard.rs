//! The standard time-unit table and the ready-made duration parser around
//! it.
//!
//! The standard identifiers are one- or two-letter abbreviations: `ns`,
//! `Ms`, `ms`, `s`, `m`, `h`, `d`, `w`, `M` and `y`. A table holds any
//! subset of them; lookup finds the first enabled unit whose identifier
//! matches, and every standard unit carries the neutral extra multiplier.

use vstd::prelude::*;
use vstd::string::StringSliceAdditionalSpecFns;
use crate::config::{Config, Delimiter};
use crate::duration::Duration;
use crate::error::ParseError;
use crate::parse::Parser;
use crate::time::{Multiplier, TimeUnit, TimeUnitsLike};

verus! {

/// The standard identifier of a time unit.
pub open spec fn unit_id(u: TimeUnit) -> Seq<u8> {
    match u {
        TimeUnit::NanoSecond => seq![110u8, 115u8],  // ns
        TimeUnit::MicroSecond => seq![77u8, 115u8],  // Ms
        TimeUnit::MilliSecond => seq![109u8, 115u8],  // ms
        TimeUnit::Second => seq![115u8],  // s
        TimeUnit::Minute => seq![109u8],  // m
        TimeUnit::Hour => seq![104u8],  // h
        TimeUnit::Day => seq![100u8],  // d
        TimeUnit::Week => seq![119u8],  // w
        TimeUnit::Month => seq![77u8],  // M
        TimeUnit::Year => seq![121u8],  // y
    }
}

/// The first unit in `units` whose standard identifier is `id`, with the
/// neutral multiplier.
pub open spec fn spec_lookup(units: Seq<TimeUnit>, id: Seq<u8>) -> Option<(TimeUnit, Multiplier)>
    decreases units.len(),
{
    if units.len() == 0 {
        None
    } else if unit_id(units[0]) == id {
        Some((units[0], Multiplier(1, 0)))
    } else {
        spec_lookup(units.skip(1), id)
    }
}

/// A set of enabled standard time units.
#[derive(Clone, Debug, PartialEq, Eq)]
pub struct TimeUnits {
    pub units: Vec<TimeUnit>,
}

/// Whether the identifier bytes equal the standard identifier of `u`.
fn id_matches(u: TimeUnit, id: &[u8]) -> (r: bool)
    ensures
        r <==> id@ == unit_id(u),
{
    let r = match u {
        TimeUnit::NanoSecond => id.len() == 2 && id[0] == 110 && id[1] == 115,
        TimeUnit::MicroSecond => id.len() == 2 && id[0] == 77 && id[1] == 115,
        TimeUnit::MilliSecond => id.len() == 2 && id[0] == 109 && id[1] == 115,
        TimeUnit::Second => id.len() == 1 && id[0] == 115,
        TimeUnit::Minute => id.len() == 1 && id[0] == 109,
        TimeUnit::Hour => id.len() == 1 && id[0] == 104,
        TimeUnit::Day => id.len() == 1 && id[0] == 100,
        TimeUnit::Week => id.len() == 1 && id[0] == 119,
        TimeUnit::Month => id.len() == 1 && id[0] == 77,
        TimeUnit::Year => id.len() == 1 && id[0] == 121,
    };
    proof {
        if r {
            assert(id@ =~= unit_id(u));
        } else {
            if id@.len() == unit_id(u).len() {
                assert(id@ != unit_id(u)) by {
                    if id@ =~= unit_id(u) {
                        assert(id@[0] == unit_id(u)[0]);
                        if id@.len() == 2 {
                            assert(id@[1] == unit_id(u)[1]);
                        }
                    }
                }
            }
        }
    }
    r
}

impl TimeUnits {
    /// A table with no units at all.
    pub fn new() -> (r: TimeUnits)
        ensures
            r.units@ == Seq::<TimeUnit>::empty(),
    {
        let r = TimeUnits { units: Vec::new() };
        proof {
            assert(r.units@ =~= Seq::<TimeUnit>::empty());
        }
        r
    }

    /// The default table: nanoseconds through weeks.
    pub fn with_default_time_units() -> (r: TimeUnits)
        ensures
            r.units@ == seq![
                TimeUnit::NanoSecond,
                TimeUnit::MicroSecond,
                TimeUnit::MilliSecond,
                TimeUnit::Second,
                TimeUnit::Minute,
                TimeUnit::Hour,
                TimeUnit::Day,
                TimeUnit::Week,
            ],
    {
        let mut units: Vec<TimeUnit> = Vec::new();
        units.push(TimeUnit::NanoSecond);
        units.push(TimeUnit::MicroSecond);
        units.push(TimeUnit::MilliSecond);
        units.push(TimeUnit::Second);
        units.push(TimeUnit::Minute);
        units.push(TimeUnit::Hour);
        units.push(TimeUnit::Day);
        units.push(TimeUnit::Week);
        proof {
            assert(units@ =~= seq![
                TimeUnit::NanoSecond,
                TimeUnit::MicroSecond,
                TimeUnit::MilliSecond,
                TimeUnit::Second,
                TimeUnit::Minute,
                TimeUnit::Hour,
                TimeUnit::Day,
                TimeUnit::Week,
            ]);
        }
        TimeUnits { units }
    }

    /// The full table: every standard unit, nanoseconds through years.
    pub fn with_all_time_units() -> (r: TimeUnits)
        ensures
            r.units@ == seq![
                TimeUnit::NanoSecond,
                TimeUnit::MicroSecond,
                TimeUnit::MilliSecond,
                TimeUnit::Second,
                TimeUnit::Minute,
                TimeUnit::Hour,
                TimeUnit::Day,
                TimeUnit::Week,
                TimeUnit::Month,
                TimeUnit::Year,
            ],
    {
        let mut units: Vec<TimeUnit> = Vec::new();
        units.push(TimeUnit::NanoSecond);
        units.push(TimeUnit::MicroSecond);
        units.push(TimeUnit::MilliSecond);
        units.push(TimeUnit::Second);
        units.push(TimeUnit::Minute);
        units.push(TimeUnit::Hour);
        units.push(TimeUnit::Day);
        units.push(TimeUnit::Week);
        units.push(TimeUnit::Month);
        units.push(TimeUnit::Year);
        proof {
            assert(units@ =~= seq![
                TimeUnit::NanoSecond,
                TimeUnit::MicroSecond,
                TimeUnit::MilliSecond,
                TimeUnit::Second,
                TimeUnit::Minute,
                TimeUnit::Hour,
                TimeUnit::Day,
                TimeUnit::Week,
                TimeUnit::Month,
                TimeUnit::Year,
            ]);
        }
        TimeUnits { units }
    }

    /// A table holding exactly the given units, in order.
    pub fn with_time_units(time_units: &[TimeUnit]) -> (r: TimeUnits)
        ensures
            r.units@ == time_units@,
    {
        let mut units: Vec<TimeUnit> = Vec::new();
        let mut i: usize = 0;
        while i < time_units.len()
            invariant
                0 <= i <= time_units@.len(),
                units@ == time_units@.take(i as int),
            decreases time_units@.len() - i,
        {
            units.push(time_units[i]);
            proof {
                assert(units@ =~= time_units@.take(i + 1));
            }
            i = i + 1;
        }
        proof {
            assert(time_units@.take(time_units@.len() as int) =~= time_units@);
        }
        TimeUnits { units }
    }
}

impl TimeUnitsLike for TimeUnits {
    open spec fn spec_get(&self, identifier: Seq<u8>) -> Option<(TimeUnit, Multiplier)> {
        spec_lookup(self.units@, identifier)
    }

    open spec fn spec_is_empty(&self) -> bool {
        self.units@.len() == 0
    }

    fn is_empty(&self) -> (r: bool)
        ensures
            r == self.spec_is_empty(),
    {
        self.units.len() == 0
    }

    fn get(&self, identifier: &[u8]) -> (r: Option<(TimeUnit, Multiplier)>)
        ensures
            r == self.spec_get(identifier@),
            self.spec_is_empty() ==> r is None,
    {
        let mut i: usize = 0;
        proof {
            assert(self.units@.skip(0) =~= self.units@);
        }
        while i < self.units.len()
            invariant
                0 <= i <= self.units@.len(),
                spec_lookup(self.units@, identifier@) == spec_lookup(
                    self.units@.skip(i as int),
                    identifier@,
                ),
            decreases self.units@.len() - i,
        {
            let u = self.units[i];
            if id_matches(u, identifier) {
                proof {
                    assert(self.units@.skip(i as int)[0] == u);
                }
                return Some((u, Multiplier(1, 0)));
            }
            proof {
                assert(self.units@.skip(i as int)[0] == u);
                assert(self.units@.skip(i as int).skip(1) =~= self.units@.skip(i + 1));
            }
            i = i + 1;
        }
        proof {
            assert(self.units@.skip(i as int).len() == 0);
        }
        None
    }
}

/// A parser for the standard time units.
#[derive(Clone, Debug, PartialEq, Eq)]
pub struct DurationParser<'a> {
    pub time_units: TimeUnits,
    pub inner: Parser<'a>,
}

impl<'a> DurationParser<'a> {
    /// A parser recognizing the default units (nanoseconds through weeks).
    pub fn new() -> (r: Self)
        ensures
            r.inner.config == Config::<'a>::spec_default(),
            r.time_units.units@.len() == 8,
    {
        DurationParser { time_units: TimeUnits::with_default_time_units(), inner: Parser::new() }
    }

    /// A parser recognizing every standard unit.
    pub fn with_all_time_units() -> (r: Self)
        ensures
            r.inner.config == Config::<'a>::spec_default(),
            r.time_units.units@.len() == 10,
    {
        DurationParser { time_units: TimeUnits::with_all_time_units(), inner: Parser::new() }
    }

    /// A parser recognizing no units at all: only plain numbers parse.
    pub fn without_time_units() -> (r: Self)
        ensures
            r.inner.config == Config::<'a>::spec_default(),
            r.time_units.units@.len() == 0,
    {
        DurationParser { time_units: TimeUnits::new(), inner: Parser::new() }
    }

    /// A parser recognizing exactly the given units.
    pub fn with_time_units(time_units: &[TimeUnit]) -> (r: Self)
        ensures
            r.inner.config == Config::<'a>::spec_default(),
            r.time_units.units@ == time_units@,
    {
        DurationParser {
            time_units: TimeUnits::with_time_units(time_units),
            inner: Parser::new(),
        }
    }

    /// Change the unit assumed when the input names none.
    pub fn default_unit(&mut self, unit: TimeUnit)
        ensures
            final(self).inner.config == (Config {
                default_unit: unit,
                ..old(self).inner.config
            }),
            final(self).time_units == old(self).time_units,
    {
        self.inner.config.default_unit = unit;
    }

    /// Allow (or forbid) runs of delimiter bytes between the number and the
    /// unit.
    pub fn allow_delimiter(&mut self, delimiter: Option<Delimiter>)
        ensures
            final(self).inner.config == (Config {
                allow_delimiter: delimiter,
                ..old(self).inner.config
            }),
            final(self).time_units == old(self).time_units,
    {
        self.inner.config.allow_delimiter = delimiter;
    }

    /// Parse one input with this parser's units and configuration.
    pub fn parse(&self, source: &str) -> (r: Result<Duration, ParseError>)
        ensures
            r matches Ok(d) ==> d.wf(),
            r == Err::<Duration, ParseError>(ParseError::Empty) <==> source.spec_bytes().len()
                == 0,
            crate::parse::round_trips(r, self.inner.config, source.spec_bytes(), true),
    {
        self.inner.parse(source, &self.time_units, None)
    }
}

impl<'a> Default for DurationParser<'a> {
    /// Same as [`DurationParser::new`].
    fn default() -> (r: Self)
        ensures
            r.inner.config == Config::<'a>::spec_default(),
            r.time_units.units@.len() == 8,
    {
        DurationParser::new()
    }
}

} // verus!
