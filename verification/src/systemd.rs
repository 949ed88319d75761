//! A parser for systemd-style time spans.
//!
//! Accepts the alias set systemd uses for its units (`s`, `sec`, `seconds`,
//! `usec`, `µs`, ...), allows whitespace between number and unit and
//! between spans, makes the number optional, and rejects fractions,
//! exponents and infinity — several spans in one input are summed.

use vstd::prelude::*;
use vstd::string::StringSliceAdditionalSpecFns;
use crate::config::{Config, ConfigBuilder, Delimiter};
use crate::duration::Duration;
use crate::error::ParseError;
use crate::parse::Parser;
use crate::time::{Multiplier, TimeUnit, TimeUnitsLike};

verus! {

/// The unit (with the neutral multiplier) a systemd-style identifier
/// denotes.
pub open spec fn spec_systemd_unit(id: Seq<u8>) -> Option<(TimeUnit, Multiplier)> {
    let m = Multiplier(1, 0);
    if id == seq![115u8] {
        Some((TimeUnit::Second, m))  // s
    } else if id == seq![109u8] {
        Some((TimeUnit::Minute, m))  // m
    } else if id == seq![104u8] {
        Some((TimeUnit::Hour, m))  // h
    } else if id == seq![100u8] {
        Some((TimeUnit::Day, m))  // d
    } else if id == seq![119u8] {
        Some((TimeUnit::Week, m))  // w
    } else if id == seq![77u8] {
        Some((TimeUnit::Month, m))  // M
    } else if id == seq![121u8] {
        Some((TimeUnit::Year, m))  // y
    } else if id == seq![110u8, 115u8] {
        Some((TimeUnit::NanoSecond, m))  // ns
    } else if id == seq![117u8, 115u8] {
        Some((TimeUnit::MicroSecond, m))  // us
    } else if id == seq![109u8, 115u8] {
        Some((TimeUnit::MilliSecond, m))  // ms
    } else if id == seq![104u8, 114u8] {
        Some((TimeUnit::Hour, m))  // hr
    } else if id == seq![0xc2u8, 0xb5u8, 115u8] {
        Some((TimeUnit::MicroSecond, m))  // µs
    } else if id == seq![115u8, 101u8, 99u8] {
        Some((TimeUnit::Second, m))  // sec
    } else if id == seq![109u8, 105u8, 110u8] {
        Some((TimeUnit::Minute, m))  // min
    } else if id == seq![100u8, 97u8, 121u8] {
        Some((TimeUnit::Day, m))  // day
    } else if id == seq![110u8, 115u8, 101u8, 99u8] {
        Some((TimeUnit::NanoSecond, m))  // nsec
    } else if id == seq![117u8, 115u8, 101u8, 99u8] {
        Some((TimeUnit::MicroSecond, m))  // usec
    } else if id == seq![109u8, 115u8, 101u8, 99u8] {
        Some((TimeUnit::MilliSecond, m))  // msec
    } else if id == seq![104u8, 111u8, 117u8, 114u8] {
        Some((TimeUnit::Hour, m))  // hour
    } else if id == seq![100u8, 97u8, 121u8, 115u8] {
        Some((TimeUnit::Day, m))  // days
    } else if id == seq![119u8, 101u8, 101u8, 107u8] {
        Some((TimeUnit::Week, m))  // week
    } else if id == seq![121u8, 101u8, 97u8, 114u8] {
        Some((TimeUnit::Year, m))  // year
    } else if id == seq![104u8, 111u8, 117u8, 114u8, 115u8] {
        Some((TimeUnit::Hour, m))  // hours
    } else if id == seq![119u8, 101u8, 101u8, 107u8, 115u8] {
        Some((TimeUnit::Week, m))  // weeks
    } else if id == seq![109u8, 111u8, 110u8, 116u8, 104u8] {
        Some((TimeUnit::Month, m))  // month
    } else if id == seq![121u8, 101u8, 97u8, 114u8, 115u8] {
        Some((TimeUnit::Year, m))  // years
    } else if id == seq![115u8, 101u8, 99u8, 111u8, 110u8, 100u8] {
        Some((TimeUnit::Second, m))  // second
    } else if id == seq![109u8, 105u8, 110u8, 117u8, 116u8, 101u8] {
        Some((TimeUnit::Minute, m))  // minute
    } else if id == seq![109u8, 111u8, 110u8, 116u8, 104u8, 115u8] {
        Some((TimeUnit::Month, m))  // months
    } else if id == seq![115u8, 101u8, 99u8, 111u8, 110u8, 100u8, 115u8] {
        Some((TimeUnit::Second, m))  // seconds
    } else if id == seq![109u8, 105u8, 110u8, 117u8, 116u8, 101u8, 115u8] {
        Some((TimeUnit::Minute, m))  // minutes
    } else {
        None
    }
}

/// The systemd alias table.
#[derive(Clone, Copy, Debug, PartialEq, Eq)]
pub struct TimeUnits {}

/// Whether `id` is exactly the given word.
fn word_eq(id: &[u8], w: &[u8]) -> (r: bool)
    ensures
        r <==> id@ == w@,
{
    if id.len() != w.len() {
        proof {
            assert(id@.len() != w@.len());
        }
        return false;
    }
    let mut i: usize = 0;
    while i < w.len()
        invariant
            0 <= i <= w@.len(),
            id@.len() == w@.len(),
            forall|m: int| 0 <= m < i ==> id@[m] == #[trigger] w@[m],
        decreases w@.len() - i,
    {
        if id[i] != w[i] {
            return false;
        }
        i = i + 1;
    }
    proof {
        assert(id@ =~= w@);
    }
    true
}

impl TimeUnitsLike for TimeUnits {
    open spec fn spec_get(&self, identifier: Seq<u8>) -> Option<(TimeUnit, Multiplier)> {
        spec_systemd_unit(identifier)
    }

    open spec fn spec_is_empty(&self) -> bool {
        false
    }

    fn is_empty(&self) -> (r: bool)
        ensures
            r == self.spec_is_empty(),
    {
        false
    }

    fn get(&self, identifier: &[u8]) -> (r: Option<(TimeUnit, Multiplier)>)
        ensures
            r == self.spec_get(identifier@),
            self.spec_is_empty() ==> r is None,
    {
        let m = Multiplier(1, 0);
        let s1: [u8; 1] = [115];
        proof {
            assert(s1@ =~= seq![115u8]);
        }
        if word_eq(identifier, s1.as_slice()) {
            return Some((TimeUnit::Second, m));
        }
        let m1: [u8; 1] = [109];
        proof {
            assert(m1@ =~= seq![109u8]);
        }
        if word_eq(identifier, m1.as_slice()) {
            return Some((TimeUnit::Minute, m));
        }
        let h1: [u8; 1] = [104];
        proof {
            assert(h1@ =~= seq![104u8]);
        }
        if word_eq(identifier, h1.as_slice()) {
            return Some((TimeUnit::Hour, m));
        }
        let d1: [u8; 1] = [100];
        proof {
            assert(d1@ =~= seq![100u8]);
        }
        if word_eq(identifier, d1.as_slice()) {
            return Some((TimeUnit::Day, m));
        }
        let w1: [u8; 1] = [119];
        proof {
            assert(w1@ =~= seq![119u8]);
        }
        if word_eq(identifier, w1.as_slice()) {
            return Some((TimeUnit::Week, m));
        }
        let mon1: [u8; 1] = [77];
        proof {
            assert(mon1@ =~= seq![77u8]);
        }
        if word_eq(identifier, mon1.as_slice()) {
            return Some((TimeUnit::Month, m));
        }
        let y1: [u8; 1] = [121];
        proof {
            assert(y1@ =~= seq![121u8]);
        }
        if word_eq(identifier, y1.as_slice()) {
            return Some((TimeUnit::Year, m));
        }
        let ns: [u8; 2] = [110, 115];
        proof {
            assert(ns@ =~= seq![110u8, 115u8]);
        }
        if word_eq(identifier, ns.as_slice()) {
            return Some((TimeUnit::NanoSecond, m));
        }
        let us: [u8; 2] = [117, 115];
        proof {
            assert(us@ =~= seq![117u8, 115u8]);
        }
        if word_eq(identifier, us.as_slice()) {
            return Some((TimeUnit::MicroSecond, m));
        }
        let msw: [u8; 2] = [109, 115];
        proof {
            assert(msw@ =~= seq![109u8, 115u8]);
        }
        if word_eq(identifier, msw.as_slice()) {
            return Some((TimeUnit::MilliSecond, m));
        }
        let hr: [u8; 2] = [104, 114];
        proof {
            assert(hr@ =~= seq![104u8, 114u8]);
        }
        if word_eq(identifier, hr.as_slice()) {
            return Some((TimeUnit::Hour, m));
        }
        let micro: [u8; 3] = [0xc2, 0xb5, 115];
        proof {
            assert(micro@ =~= seq![0xc2u8, 0xb5u8, 115u8]);
        }
        if word_eq(identifier, micro.as_slice()) {
            return Some((TimeUnit::MicroSecond, m));
        }
        let sec: [u8; 3] = [115, 101, 99];
        proof {
            assert(sec@ =~= seq![115u8, 101u8, 99u8]);
        }
        if word_eq(identifier, sec.as_slice()) {
            return Some((TimeUnit::Second, m));
        }
        let min: [u8; 3] = [109, 105, 110];
        proof {
            assert(min@ =~= seq![109u8, 105u8, 110u8]);
        }
        if word_eq(identifier, min.as_slice()) {
            return Some((TimeUnit::Minute, m));
        }
        let day: [u8; 3] = [100, 97, 121];
        proof {
            assert(day@ =~= seq![100u8, 97u8, 121u8]);
        }
        if word_eq(identifier, day.as_slice()) {
            return Some((TimeUnit::Day, m));
        }
        let nsec: [u8; 4] = [110, 115, 101, 99];
        proof {
            assert(nsec@ =~= seq![110u8, 115u8, 101u8, 99u8]);
        }
        if word_eq(identifier, nsec.as_slice()) {
            return Some((TimeUnit::NanoSecond, m));
        }
        let usec: [u8; 4] = [117, 115, 101, 99];
        proof {
            assert(usec@ =~= seq![117u8, 115u8, 101u8, 99u8]);
        }
        if word_eq(identifier, usec.as_slice()) {
            return Some((TimeUnit::MicroSecond, m));
        }
        let msec: [u8; 4] = [109, 115, 101, 99];
        proof {
            assert(msec@ =~= seq![109u8, 115u8, 101u8, 99u8]);
        }
        if word_eq(identifier, msec.as_slice()) {
            return Some((TimeUnit::MilliSecond, m));
        }
        let hour: [u8; 4] = [104, 111, 117, 114];
        proof {
            assert(hour@ =~= seq![104u8, 111u8, 117u8, 114u8]);
        }
        if word_eq(identifier, hour.as_slice()) {
            return Some((TimeUnit::Hour, m));
        }
        let days: [u8; 4] = [100, 97, 121, 115];
        proof {
            assert(days@ =~= seq![100u8, 97u8, 121u8, 115u8]);
        }
        if word_eq(identifier, days.as_slice()) {
            return Some((TimeUnit::Day, m));
        }
        let week: [u8; 4] = [119, 101, 101, 107];
        proof {
            assert(week@ =~= seq![119u8, 101u8, 101u8, 107u8]);
        }
        if word_eq(identifier, week.as_slice()) {
            return Some((TimeUnit::Week, m));
        }
        let year: [u8; 4] = [121, 101, 97, 114];
        proof {
            assert(year@ =~= seq![121u8, 101u8, 97u8, 114u8]);
        }
        if word_eq(identifier, year.as_slice()) {
            return Some((TimeUnit::Year, m));
        }
        let hours: [u8; 5] = [104, 111, 117, 114, 115];
        proof {
            assert(hours@ =~= seq![104u8, 111u8, 117u8, 114u8, 115u8]);
        }
        if word_eq(identifier, hours.as_slice()) {
            return Some((TimeUnit::Hour, m));
        }
        let weeks: [u8; 5] = [119, 101, 101, 107, 115];
        proof {
            assert(weeks@ =~= seq![119u8, 101u8, 101u8, 107u8, 115u8]);
        }
        if word_eq(identifier, weeks.as_slice()) {
            return Some((TimeUnit::Week, m));
        }
        let month: [u8; 5] = [109, 111, 110, 116, 104];
        proof {
            assert(month@ =~= seq![109u8, 111u8, 110u8, 116u8, 104u8]);
        }
        if word_eq(identifier, month.as_slice()) {
            return Some((TimeUnit::Month, m));
        }
        let years: [u8; 5] = [121, 101, 97, 114, 115];
        proof {
            assert(years@ =~= seq![121u8, 101u8, 97u8, 114u8, 115u8]);
        }
        if word_eq(identifier, years.as_slice()) {
            return Some((TimeUnit::Year, m));
        }
        let second: [u8; 6] = [115, 101, 99, 111, 110, 100];
        proof {
            assert(second@ =~= seq![115u8, 101u8, 99u8, 111u8, 110u8, 100u8]);
        }
        if word_eq(identifier, second.as_slice()) {
            return Some((TimeUnit::Second, m));
        }
        let minute: [u8; 6] = [109, 105, 110, 117, 116, 101];
        proof {
            assert(minute@ =~= seq![109u8, 105u8, 110u8, 117u8, 116u8, 101u8]);
        }
        if word_eq(identifier, minute.as_slice()) {
            return Some((TimeUnit::Minute, m));
        }
        let months: [u8; 6] = [109, 111, 110, 116, 104, 115];
        proof {
            assert(months@ =~= seq![109u8, 111u8, 110u8, 116u8, 104u8, 115u8]);
        }
        if word_eq(identifier, months.as_slice()) {
            return Some((TimeUnit::Month, m));
        }
        let seconds: [u8; 7] = [115, 101, 99, 111, 110, 100, 115];
        proof {
            assert(seconds@ =~= seq![115u8, 101u8, 99u8, 111u8, 110u8, 100u8, 115u8]);
        }
        if word_eq(identifier, seconds.as_slice()) {
            return Some((TimeUnit::Second, m));
        }
        let minutes: [u8; 7] = [109, 105, 110, 117, 116, 101, 115];
        proof {
            assert(minutes@ =~= seq![109u8, 105u8, 110u8, 117u8, 116u8, 101u8, 115u8]);
        }
        if word_eq(identifier, minutes.as_slice()) {
            return Some((TimeUnit::Minute, m));
        }
        None
    }
}

/// A parser for systemd-style time spans.
#[derive(Clone, Copy, Debug, PartialEq, Eq)]
pub struct TimeSpanParser<'a> {
    pub parser: Parser<'a>,
}

impl<'a> TimeSpanParser<'a> {
    /// The systemd configuration: whitespace delimiters, optional number,
    /// several spans per input, no fraction, exponent or infinity, no
    /// conjunctions, no negatives, no `ago`.
    pub fn new() -> (r: Self)
        ensures
            r.parser.config == (Config {
                allow_delimiter: Some(Delimiter(0x1_0000_3e00)),
                default_unit: crate::time::TimeUnit::Second,
                default_multiplier: Multiplier(1, 0),
                disable_exponent: true,
                disable_fraction: true,
                disable_infinity: true,
                number_is_optional: true,
                max_exponent: 32767,
                min_exponent: -32768i16,
                parse_multiple_delimiter: Some(Delimiter(0x1_0000_3e00)),
                parse_multiple_conjunctions: None,
                allow_negative: false,
                allow_ago: None,
            }),
            forall|c: u8|
                r.parser.config.parse_multiple_delimiter.unwrap().spec_matches(c) <==> (c == 32
                    || 9 <= c <= 13),
    {
        let delimiter = Delimiter::whitespace();
        let config = ConfigBuilder::new()
            .allow_delimiter(delimiter)
            .disable_exponent()
            .disable_fraction()
            .disable_infinity()
            .number_is_optional()
            .parse_multiple(delimiter, None)
            .build();
        TimeSpanParser { parser: Parser::with_config(config) }
    }

    /// Parse one time-span input. A bare decimal number is that many whole
    /// seconds; the result is the saturating sum of every span of the input.
    pub fn parse(&self, source: &str) -> (r: Result<Duration, ParseError>)
        ensures
            r matches Ok(d) ==> d.wf(),
            r == Err::<Duration, ParseError>(ParseError::Empty) <==> source.spec_bytes().len()
                == 0,
            crate::parse::round_trips(r, self.parser.config, source.spec_bytes(), true),
    {
        self.parser.parse(source, &TimeUnits {  }, None)
    }
}

impl<'a> Default for TimeSpanParser<'a> {
    /// Same as [`TimeSpanParser::new`].
    fn default() -> (r: Self)
        ensures
            r.parser.config.number_is_optional,
    {
        TimeSpanParser::new()
    }
}

} // verus!
