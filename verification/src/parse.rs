//! The parser handle: one configuration, reusable across inputs.
//!
//! A parse runs the scanner over the input, evaluates each scanned
//! representation exactly, and — when the configuration allows several
//! durations in one input — sums the segments with saturating addition.
//! Failure of any segment fails the whole input.

use vstd::prelude::*;
use vstd::string::StringSliceAdditionalSpecFns;
use crate::arith::{
    ascii_digits, dec_digits, decimal_bytes, frac9, lemma_ascii_digits_roundtrip,
    lemma_dec_digits_val, lemma_frac9, strip_zeros,
};
use crate::config::Config;
use crate::duration::{saturating_sum, Duration};
use crate::error::ParseError;
use crate::repr::{lemma_decimal_round_trip, lemma_integer_round_trip};
use crate::repr_parser::{lemma_decimal_windows, lemma_integer_windows, ReprParser};
use crate::time::{Multiplier, TimeUnit, TimeUnitsLike};

verus! {

/// A configuration that reads a bare number as plain seconds: the default
/// unit is the second and the default multiplier is neutral.
pub open spec fn plain_seconds_config<'a>(config: Config<'a>) -> bool {
    config.default_unit == TimeUnit::Second && config.default_multiplier == Multiplier(1, 0)
}

/// Parsing the canonical decimal form of a pair `(s, n)` — or the bare
/// decimal digits of `s` alone — yields exactly that value, under any
/// configuration that reads bare numbers as plain seconds: no digit is
/// lost.
pub open spec fn round_trips<'a>(
    r: Result<Duration, ParseError>,
    config: Config<'a>,
    source_bytes: Seq<u8>,
    outer_is_none: bool,
) -> bool {
    &&& (forall|s: u64, n: u32|
        n <= 999_999_999 && plain_seconds_config(config) && !config.disable_fraction
            && outer_is_none && source_bytes == #[trigger] decimal_bytes(s as nat, n as nat)
            ==> r == Ok::<Duration, ParseError>(
            Duration { secs: s, nanos: n, is_negative: false },
        ))
    &&& (forall|s: u64|
        plain_seconds_config(config) && outer_is_none && source_bytes
            == #[trigger] ascii_digits(dec_digits(s as nat)) ==> r == Ok::<Duration, ParseError>(
            Duration { secs: s, nanos: 0, is_negative: false },
        ))
}

/// The saturating sum of a single well-formed duration is its own value.
proof fn lemma_sum_of_single(s: Seq<Duration>, x: Duration)
    requires
        s == seq![x],
        x.wf(),
    ensures
        crate::duration::sat_sum_vals(s) == x.val(),
{
    assert(s.drop_last() =~= Seq::<Duration>::empty());
    assert(s.last() == x);
    assert(crate::duration::sat_sum_vals(Seq::<Duration>::empty()) == 0);
    assert(crate::duration::clamp_duration_val(0 + x.val()) == x.val());
}

/// A reusable parser around one configuration.
#[derive(Clone, Copy, Debug, PartialEq, Eq)]
pub struct Parser<'a> {
    pub config: Config<'a>,
}

impl<'a> Parser<'a> {
    /// A parser with the default configuration.
    pub fn new() -> (r: Self)
        ensures
            r.config == Config::<'a>::spec_default(),
    {
        Parser { config: Config::new() }
    }

    /// A parser around the given configuration.
    pub fn with_config(config: Config<'a>) -> (r: Self)
        ensures
            r.config == config,
    {
        Parser { config }
    }

    /// Parse one input into a duration.
    ///
    /// The time-unit table decides which identifiers are recognized; an
    /// optional outer multiplier scales the result on top of the configured
    /// default multiplier. With a multiple-durations configuration the
    /// result is the saturating sum of every segment.
    pub fn parse<T: TimeUnitsLike>(
        &self,
        source: &str,
        time_units: &T,
        outer_multiplier: Option<Multiplier>,
    ) -> (r: Result<Duration, ParseError>)
        ensures
            r matches Ok(d) ==> d.wf(),
            r == Err::<Duration, ParseError>(ParseError::Empty) <==> source.spec_bytes().len()
                == 0,
            round_trips(r, self.config, source.spec_bytes(), outer_multiplier is None),
    {
        match self.config.parse_multiple_delimiter {
            Some(_) => self.parse_multiple(source, time_units, outer_multiplier),
            None => self.parse_single(source, time_units, outer_multiplier),
        }
    }

    /// Parse an input holding exactly one duration.
    fn parse_single<T: TimeUnitsLike>(
        &self,
        source: &str,
        time_units: &T,
        outer_multiplier: Option<Multiplier>,
    ) -> (r: Result<Duration, ParseError>)
        ensures
            r matches Ok(d) ==> d.wf(),
            r == Err::<Duration, ParseError>(ParseError::Empty) <==> source.spec_bytes().len()
                == 0,
            round_trips(r, self.config, source.spec_bytes(), outer_multiplier is None),
    {
        let mut scanner = ReprParser::new(source, &self.config, time_units);
        let result = match scanner.parse() {
            Ok(p) => {
                let d = p.0.parse(
                    self.config.allow_negative,
                    self.config.default_multiplier,
                    outer_multiplier,
                );
                proof {
                    let cfg = self.config;
                    let inp = source.spec_bytes();
                    assert(inp.subrange(0, inp.len() as int) =~= inp);
                    assert forall|s: u64, n: u32|
                        n <= 999_999_999 && plain_seconds_config(cfg) && !cfg.disable_fraction
                            && outer_multiplier is None && inp == #[trigger] decimal_bytes(
                            s as nat,
                            n as nat,
                        ) implies d == Ok::<Duration, ParseError>(
                        Duration { secs: s, nanos: n, is_negative: false },
                    ) by {
                        lemma_dec_digits_val(s as nat);
                        lemma_frac9(n as nat);
                        lemma_ascii_digits_roundtrip(dec_digits(s as nat));
                        lemma_ascii_digits_roundtrip(frac9(n as nat));
                        lemma_decimal_windows(inp, 0, s, n, cfg);
                        let dw = strip_zeros(dec_digits(s as nat));
                        assert(p.0.digits@ == dw + frac9(n as nat));
                        assert(p.0.whole_len() == dw.len());
                        lemma_decimal_round_trip(p.0, cfg.allow_negative, dw, s, n);
                    }
                    assert forall|s: u64|
                        plain_seconds_config(cfg) && outer_multiplier is None && inp
                            == #[trigger] ascii_digits(dec_digits(s as nat)) implies d == Ok::<
                        Duration,
                        ParseError,
                    >(Duration { secs: s, nanos: 0, is_negative: false }) by {
                        lemma_dec_digits_val(s as nat);
                        lemma_ascii_digits_roundtrip(dec_digits(s as nat));
                        lemma_integer_windows(inp, 0, s, cfg);
                        let dw = strip_zeros(dec_digits(s as nat));
                        assert(p.0.digits@ == dw);
                        assert(p.0.whole_len() == dw.len());
                        lemma_integer_round_trip(p.0, cfg.allow_negative, dw, s);
                    }
                }
                d
            },
            Err(e) => {
                proof {
                    // the scan of a well-shaped number cannot fail
                    let cfg = self.config;
                    let inp = source.spec_bytes();
                    assert(inp.subrange(0, inp.len() as int) =~= inp);
                    assert forall|s: u64, n: u32|
                        n <= 999_999_999 && plain_seconds_config(cfg) && !cfg.disable_fraction
                            && outer_multiplier is None && inp == #[trigger] decimal_bytes(
                            s as nat,
                            n as nat,
                        ) implies Err::<Duration, ParseError>(e) == Ok::<Duration, ParseError>(
                        Duration { secs: s, nanos: n, is_negative: false },
                    ) by {
                        lemma_dec_digits_val(s as nat);
                        lemma_frac9(n as nat);
                        lemma_ascii_digits_roundtrip(dec_digits(s as nat));
                        lemma_ascii_digits_roundtrip(frac9(n as nat));
                        lemma_decimal_windows(inp, 0, s, n, cfg);
                    }
                    assert forall|s: u64|
                        plain_seconds_config(cfg) && outer_multiplier is None && inp
                            == #[trigger] ascii_digits(dec_digits(s as nat)) implies Err::<
                        Duration,
                        ParseError,
                    >(e) == Ok::<Duration, ParseError>(
                        Duration { secs: s, nanos: 0, is_negative: false },
                    ) by {
                        lemma_dec_digits_val(s as nat);
                        lemma_ascii_digits_roundtrip(dec_digits(s as nat));
                        lemma_integer_windows(inp, 0, s, cfg);
                    }
                }
                Err(e)
            },
        };
        result
    }

    /// Parse an input holding one or more durations and sum them with
    /// saturation.
    fn parse_multiple<T: TimeUnitsLike>(
        &self,
        source: &str,
        time_units: &T,
        outer_multiplier: Option<Multiplier>,
    ) -> (r: Result<Duration, ParseError>)
        ensures
            r matches Ok(d) ==> d.wf(),
            r == Err::<Duration, ParseError>(ParseError::Empty) <==> source.spec_bytes().len()
                == 0,
            round_trips(r, self.config, source.spec_bytes(), outer_multiplier is None),
    {
        match self.parse_segments(source, time_units, outer_multiplier) {
            Ok(segments) => {
                let total = saturating_sum(&segments);
                proof {
                    let cfg = self.config;
                    let inp = source.spec_bytes();
                    assert forall|s: u64, n: u32|
                        n <= 999_999_999 && plain_seconds_config(cfg) && !cfg.disable_fraction
                            && outer_multiplier is None && inp == #[trigger] decimal_bytes(
                            s as nat,
                            n as nat,
                        ) implies Ok::<Duration, ParseError>(total) == Ok::<Duration, ParseError>(
                        Duration { secs: s, nanos: n, is_negative: false },
                    ) by {
                        let x = Duration { secs: s, nanos: n, is_negative: false };
                        assert(segments@ == seq![x]);
                        lemma_sum_of_single(segments@, x);
                        crate::duration::lemma_val_injective(total, x);
                    }
                    assert forall|s: u64|
                        plain_seconds_config(cfg) && outer_multiplier is None && inp
                            == #[trigger] ascii_digits(dec_digits(s as nat)) implies Ok::<
                        Duration,
                        ParseError,
                    >(total) == Ok::<Duration, ParseError>(
                        Duration { secs: s, nanos: 0, is_negative: false },
                    ) by {
                        let x = Duration { secs: s, nanos: 0, is_negative: false };
                        assert(segments@ == seq![x]);
                        lemma_sum_of_single(segments@, x);
                        crate::duration::lemma_val_injective(total, x);
                    }
                }
                Ok(total)
            },
            Err(e) => Err(e),
        }
    }

    /// Parse every segment of the input independently, in order.
    ///
    /// The duration the whole input denotes is the left-to-right saturating
    /// sum of the returned segments.
    pub fn parse_segments<T: TimeUnitsLike>(
        &self,
        source: &str,
        time_units: &T,
        outer_multiplier: Option<Multiplier>,
    ) -> (r: Result<Vec<Duration>, ParseError>)
        ensures
            match r {
                Ok(ds) => ds@.len() >= 1 && (forall|i: int|
                    0 <= i < ds@.len() ==> (#[trigger] ds@[i]).wf()),
                Err(e) => e == ParseError::Empty <==> source.spec_bytes().len() == 0,
            },
            source.spec_bytes().len() == 0 ==> r is Err,
            ({
                // an input holding one canonical number is one segment
                let cfg = self.config;
                let inp = source.spec_bytes();
                &&& (forall|s: u64, n: u32|
                    n <= 999_999_999 && plain_seconds_config(cfg) && !cfg.disable_fraction
                        && outer_multiplier is None && inp == #[trigger] decimal_bytes(
                        s as nat,
                        n as nat,
                    ) ==> match r {
                        Ok(ds) => ds@ == seq![Duration { secs: s, nanos: n, is_negative: false }],
                        Err(_) => false,
                    })
                &&& (forall|s: u64|
                    plain_seconds_config(cfg) && outer_multiplier is None && inp
                        == #[trigger] ascii_digits(dec_digits(s as nat)) ==> match r {
                        Ok(ds) => ds@ == seq![Duration { secs: s, nanos: 0, is_negative: false }],
                        Err(_) => false,
                    })
            }),
    {
        let mut scanner = ReprParser::new(source, &self.config, time_units);
        let mut segments: Vec<Duration> = Vec::new();
        loop
            invariant_except_break
                scanner.pos < scanner.input@.len() || scanner.input@.len() == 0,
                forall|s: u64, n: u32|
                    (n <= 999_999_999 && plain_seconds_config(self.config)
                        && !self.config.disable_fraction && outer_multiplier is None
                        && source.spec_bytes() == #[trigger] decimal_bytes(s as nat, n as nat))
                        ==> scanner.pos == 0 && segments@.len() == 0,
                forall|s: u64|
                    (plain_seconds_config(self.config) && outer_multiplier is None
                        && source.spec_bytes() == #[trigger] ascii_digits(dec_digits(s as nat)))
                        ==> scanner.pos == 0 && segments@.len() == 0,
            invariant
                scanner.wf(),
                scanner.config == &self.config,
                scanner.input@ == source.spec_bytes(),
                forall|i: int| 0 <= i < segments@.len() ==> (#[trigger] segments@[i]).wf(),
            ensures
                source.spec_bytes().len() > 0,
                segments@.len() >= 1,
                forall|i: int| 0 <= i < segments@.len() ==> (#[trigger] segments@[i]).wf(),
                forall|s: u64, n: u32|
                    (n <= 999_999_999 && plain_seconds_config(self.config)
                        && !self.config.disable_fraction && outer_multiplier is None
                        && source.spec_bytes() == #[trigger] decimal_bytes(s as nat, n as nat))
                        ==> segments@ == seq![Duration { secs: s, nanos: n, is_negative: false }],
                forall|s: u64|
                    (plain_seconds_config(self.config) && outer_multiplier is None
                        && source.spec_bytes() == #[trigger] ascii_digits(dec_digits(s as nat)))
                        ==> segments@ == seq![Duration { secs: s, nanos: 0, is_negative: false }],
            decreases scanner.input@.len() - scanner.pos,
        {
            let before = scanner.current_pos();
            match scanner.parse() {
                Err(e) => {
                    proof {
                        // a single canonical number cannot fail here
                        let cfg = self.config;
                        let inp = source.spec_bytes();
                        assert(inp.subrange(0, inp.len() as int) =~= inp);
                        assert forall|s: u64, n: u32|
                            (n <= 999_999_999 && plain_seconds_config(cfg)
                                && !cfg.disable_fraction && outer_multiplier is None && inp
                                == #[trigger] decimal_bytes(s as nat, n as nat)) implies false by {
                            lemma_dec_digits_val(s as nat);
                            lemma_frac9(n as nat);
                            lemma_ascii_digits_roundtrip(dec_digits(s as nat));
                            lemma_ascii_digits_roundtrip(frac9(n as nat));
                            lemma_decimal_windows(inp, 0, s, n, cfg);
                        }
                        assert forall|s: u64|
                            (plain_seconds_config(cfg) && outer_multiplier is None && inp
                                == #[trigger] ascii_digits(dec_digits(s as nat))) implies false by {
                            lemma_dec_digits_val(s as nat);
                            lemma_ascii_digits_roundtrip(dec_digits(s as nat));
                            lemma_integer_windows(inp, 0, s, cfg);
                        }
                    }
                    return Err(e);
                },
                Ok(p) => {
                    match p.0.parse(
                        self.config.allow_negative,
                        self.config.default_multiplier,
                        outer_multiplier,
                    ) {
                        Err(e) => {
                            proof {
                                // evaluating a single canonical number
                                // cannot fail either
                                let cfg = self.config;
                                let inp = source.spec_bytes();
                                assert(inp.subrange(0, inp.len() as int) =~= inp);
                                assert forall|s: u64, n: u32|
                                    (n <= 999_999_999 && plain_seconds_config(cfg)
                                        && !cfg.disable_fraction && outer_multiplier is None
                                        && inp == #[trigger] decimal_bytes(
                                        s as nat,
                                        n as nat,
                                    )) implies false by {
                                    lemma_dec_digits_val(s as nat);
                                    lemma_frac9(n as nat);
                                    lemma_ascii_digits_roundtrip(dec_digits(s as nat));
                                    lemma_ascii_digits_roundtrip(frac9(n as nat));
                                    lemma_decimal_windows(inp, 0, s, n, cfg);
                                    let dw = strip_zeros(dec_digits(s as nat));
                                    assert(p.0.digits@ == dw + frac9(n as nat));
                                    assert(p.0.whole_len() == dw.len());
                                    lemma_decimal_round_trip(p.0, cfg.allow_negative, dw, s, n);
                                }
                                assert forall|s: u64|
                                    (plain_seconds_config(cfg) && outer_multiplier is None && inp
                                        == #[trigger] ascii_digits(dec_digits(s as nat)))
                                    implies false by {
                                    lemma_dec_digits_val(s as nat);
                                    lemma_ascii_digits_roundtrip(dec_digits(s as nat));
                                    lemma_integer_windows(inp, 0, s, cfg);
                                    let dw = strip_zeros(dec_digits(s as nat));
                                    assert(p.0.digits@ == dw);
                                    assert(p.0.whole_len() == dw.len());
                                    lemma_integer_round_trip(p.0, cfg.allow_negative, dw, s);
                                }
                            }
                            return Err(e);
                        },
                        Ok(d) => {
                            segments.push(d);
                        },
                    }
                    if !p.1 {
                        proof {
                            // a single canonical number makes exactly this
                            // one segment, with its exact value
                            let cfg = self.config;
                            let inp = source.spec_bytes();
                            assert(inp.subrange(0, inp.len() as int) =~= inp);
                            assert forall|s: u64, n: u32|
                                (n <= 999_999_999 && plain_seconds_config(cfg)
                                    && !cfg.disable_fraction && outer_multiplier is None && inp
                                    == #[trigger] decimal_bytes(s as nat, n as nat)) implies
                                segments@ == seq![
                                Duration { secs: s, nanos: n, is_negative: false },
                            ] by {
                                lemma_dec_digits_val(s as nat);
                                lemma_frac9(n as nat);
                                lemma_ascii_digits_roundtrip(dec_digits(s as nat));
                                lemma_ascii_digits_roundtrip(frac9(n as nat));
                                lemma_decimal_windows(inp, 0, s, n, cfg);
                                let dw = strip_zeros(dec_digits(s as nat));
                                assert(p.0.digits@ == dw + frac9(n as nat));
                                assert(p.0.whole_len() == dw.len());
                                lemma_decimal_round_trip(p.0, cfg.allow_negative, dw, s, n);
                                assert(segments@ =~= seq![
                                    Duration { secs: s, nanos: n, is_negative: false },
                                ]);
                            }
                            assert forall|s: u64|
                                (plain_seconds_config(cfg) && outer_multiplier is None && inp
                                    == #[trigger] ascii_digits(dec_digits(s as nat))) implies
                                segments@ == seq![
                                Duration { secs: s, nanos: 0, is_negative: false },
                            ] by {
                                lemma_dec_digits_val(s as nat);
                                lemma_ascii_digits_roundtrip(dec_digits(s as nat));
                                lemma_integer_windows(inp, 0, s, cfg);
                                let dw = strip_zeros(dec_digits(s as nat));
                                assert(p.0.digits@ == dw);
                                assert(p.0.whole_len() == dw.len());
                                lemma_integer_round_trip(p.0, cfg.allow_negative, dw, s);
                                assert(segments@ =~= seq![
                                    Duration { secs: s, nanos: 0, is_negative: false },
                                ]);
                            }
                        }
                        break;
                    }
                    if scanner.current_pos() == before {
                        // a segment that consumes nothing cannot recur
                        proof {
                            // a single canonical number always consumes and
                            // never reaches this guard
                            let cfg = self.config;
                            let inp = source.spec_bytes();
                            assert(inp.subrange(0, inp.len() as int) =~= inp);
                            assert forall|s: u64, n: u32|
                                (n <= 999_999_999 && plain_seconds_config(cfg)
                                    && !cfg.disable_fraction && outer_multiplier is None && inp
                                    == #[trigger] decimal_bytes(s as nat, n as nat)) implies false by {
                                lemma_dec_digits_val(s as nat);
                                lemma_frac9(n as nat);
                                lemma_ascii_digits_roundtrip(dec_digits(s as nat));
                                lemma_ascii_digits_roundtrip(frac9(n as nat));
                                lemma_decimal_windows(inp, 0, s, n, cfg);
                                assert(!p.1);
                            }
                            assert forall|s: u64|
                                (plain_seconds_config(cfg) && outer_multiplier is None && inp
                                    == #[trigger] ascii_digits(dec_digits(s as nat))) implies false by {
                                lemma_dec_digits_val(s as nat);
                                lemma_ascii_digits_roundtrip(dec_digits(s as nat));
                                lemma_integer_windows(inp, 0, s, cfg);
                                assert(!p.1);
                            }
                        }
                        return Err(ParseError::Syntax(before, "Invalid input"));
                    }
                    proof {
                        // a single canonical number never continues past its
                        // first segment, so the single-number invariants hold
                        let cfg = self.config;
                        let inp = source.spec_bytes();
                        assert(inp.subrange(0, inp.len() as int) =~= inp);
                        assert forall|s: u64, n: u32|
                            (n <= 999_999_999 && plain_seconds_config(cfg)
                                && !cfg.disable_fraction && outer_multiplier is None && inp
                                == #[trigger] decimal_bytes(s as nat, n as nat)) implies
                            scanner.pos == 0 && segments@.len() == 0 by {
                            lemma_dec_digits_val(s as nat);
                            lemma_frac9(n as nat);
                            lemma_ascii_digits_roundtrip(dec_digits(s as nat));
                            lemma_ascii_digits_roundtrip(frac9(n as nat));
                            lemma_decimal_windows(inp, 0, s, n, cfg);
                            assert(!p.1);
                        }
                        assert forall|s: u64|
                            (plain_seconds_config(cfg) && outer_multiplier is None && inp
                                == #[trigger] ascii_digits(dec_digits(s as nat))) implies
                            scanner.pos == 0 && segments@.len() == 0 by {
                            lemma_dec_digits_val(s as nat);
                            lemma_ascii_digits_roundtrip(dec_digits(s as nat));
                            lemma_integer_windows(inp, 0, s, cfg);
                            assert(!p.1);
                        }
                    }
                },
            }
        }
        Ok(segments)
    }
}

impl<'a> Default for Parser<'a> {
    /// Same as [`Parser::new`].
    fn default() -> (r: Self)
        ensures
            r.config == Config::<'a>::spec_default(),
    {
        Parser::new()
    }
}

} // verus!
