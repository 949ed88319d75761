//! A duration-string parser.
//!
//! Converts human-readable numeric strings (optionally carrying an infinity
//! token, a sign, a fractional part, a decimal exponent, and a trailing
//! time-unit identifier) into a canonical `(seconds, nanos)` duration value
//! with saturation at defined bounds. The evaluation is exact: no binary
//! floating-point value is ever involved, so every digit of the input is
//! preserved, even for inputs such as `18446744073709551615.999999999` that
//! cannot round-trip through a 64-bit float.

use vstd::prelude::*;
use vstd::string::StringSliceAdditionalSpecFns;

pub mod arith;
pub mod builder;
pub mod config;
pub mod duration;
pub mod error;
pub mod parse;
pub mod repr;
pub mod repr_parser;
pub mod standard;
pub mod systemd;
pub mod time;

pub use builder::{DurationParserBuilder, TimeUnitsChoice};
pub use config::{Config, ConfigBuilder, Delimiter};
pub use duration::Duration;
pub use error::ParseError;
pub use parse::Parser;
pub use standard::{DurationParser, TimeUnits};
pub use time::{Multiplier, TimeUnit, TimeUnitsLike};

verus! {

/// The largest value the nanosecond field of a duration can carry.
pub const NANOS_MAX: u32 = 999_999_999;

/// The largest value the seconds field of a duration can carry.
pub const SECONDS_MAX: u64 = 0xffff_ffff_ffff_ffff;

/// The unit tokens `parse_duration` accepts after the number. They are
/// validated but do not scale the result: the plain parser always reads its
/// input as seconds.
struct PlainTimeUnits {}

impl time::TimeUnitsLike for PlainTimeUnits {
    open spec fn spec_get(&self, identifier: Seq<u8>) -> Option<(TimeUnit, Multiplier)> {
        let m = Multiplier(1, 0);
        if identifier == seq![110u8, 115u8] {
            Some((TimeUnit::NanoSecond, m))  // ns
        } else if identifier == seq![109u8, 109u8, 115u8] {
            Some((TimeUnit::MicroSecond, m))  // mms
        } else if identifier == seq![109u8, 115u8] {
            Some((TimeUnit::MilliSecond, m))  // ms
        } else if identifier == seq![115u8] {
            Some((TimeUnit::Second, m))  // s
        } else if identifier == seq![109u8] {
            Some((TimeUnit::Minute, m))  // m
        } else if identifier == seq![104u8] {
            Some((TimeUnit::Hour, m))  // h
        } else if identifier == seq![100u8] {
            Some((TimeUnit::Day, m))  // d
        } else {
            None
        }
    }

    open spec fn spec_is_empty(&self) -> bool {
        false
    }

    fn is_empty(&self) -> (r: bool)
        ensures
            r == self.spec_is_empty(),
    {
        false
    }

    fn get(&self, identifier: &[u8]) -> (r: Option<(TimeUnit, Multiplier)>)
        ensures
            r == self.spec_get(identifier@),
            self.spec_is_empty() ==> r is None,
    {
        let m = Multiplier(1, 0);
        if identifier.len() == 1 {
            let b = identifier[0];
            proof {
                assert(identifier@ =~= seq![identifier@[0]]);
            }
            if b == 115 {
                Some((TimeUnit::Second, m))
            } else if b == 109 {
                Some((TimeUnit::Minute, m))
            } else if b == 104 {
                Some((TimeUnit::Hour, m))
            } else if b == 100 {
                Some((TimeUnit::Day, m))
            } else {
                None
            }
        } else if identifier.len() == 2 {
            let b0 = identifier[0];
            let b1 = identifier[1];
            proof {
                assert(identifier@ =~= seq![identifier@[0], identifier@[1]]);
            }
            if b0 == 110 && b1 == 115 {
                Some((TimeUnit::NanoSecond, m))
            } else if b0 == 109 && b1 == 115 {
                Some((TimeUnit::MilliSecond, m))
            } else {
                None
            }
        } else if identifier.len() == 3 {
            let b0 = identifier[0];
            let b1 = identifier[1];
            let b2 = identifier[2];
            proof {
                assert(identifier@ =~= seq![identifier@[0], identifier@[1], identifier@[2]]);
            }
            if b0 == 109 && b1 == 109 && b2 == 115 {
                Some((TimeUnit::MicroSecond, m))
            } else {
                None
            }
        } else {
            None
        }
    }
}

/// Parse a string into a [`Duration`] by accepting a source string similar
/// to a floating-point literal.
///
/// The accepted grammar is `Sign? ( 'inf' | 'infinity' | Number )` with
/// `Number ::= ( Digit+ | Digit+ '.' Digit* | Digit* '.' Digit+ ) Exp?`,
/// case-insensitive infinity, and the exponent restricted to
/// `-1022..=1023`. By parsing directly into integer seconds and integer
/// nanoseconds the conversion is exact: no digit is lost to binary
/// floating-point rounding, and values such as the decimal form of
/// `u64::MAX` parse without error. The result saturates at
/// `(u64::MAX, 999_999_999)`; infinity tokens resolve to that maximum. A
/// negative input (other than negative zero) is an error.
pub fn parse_duration(string: &str) -> (r: Result<Duration, String>)
    ensures
        r matches Ok(d) ==> d.wf() && !d.is_negative,
        string.spec_bytes().len() == 0 ==> r is Err,
        // the decimal form of (s, n), optionally after a `+`, parses back
        // to exactly (s, n): every typed digit is preserved
        forall|s: u64, n: u32|
            n <= 999_999_999 && (string.spec_bytes() == #[trigger] arith::decimal_bytes(
                s as nat,
                n as nat,
            ) || string.spec_bytes() == seq![43u8] + arith::decimal_bytes(s as nat, n as nat))
                ==> r == Ok::<Duration, String>(Duration { secs: s, nanos: n, is_negative: false }),
        // the bare decimal digits of `s`, optionally after a `+`, parse to
        // exactly `s` whole seconds
        forall|s: u64|
            (string.spec_bytes() == #[trigger] arith::ascii_digits(arith::dec_digits(s as nat))
                || string.spec_bytes() == seq![43u8] + arith::ascii_digits(
                arith::dec_digits(s as nat),
            )) ==> r == Ok::<Duration, String>(Duration { secs: s, nanos: 0, is_negative: false }),
        // a `-` before bare digits: negative zero is zero, anything else is
        // rejected
        forall|s: u64|
            string.spec_bytes() == seq![45u8] + #[trigger] arith::ascii_digits(
                arith::dec_digits(s as nat),
            ) ==> if s == 0 {
                r == Ok::<Duration, String>(Duration { secs: 0, nanos: 0, is_negative: false })
            } else {
                r is Err
            },
        // a `-` before the decimal form: negative zero is zero, anything
        // else is rejected
        forall|s: u64, n: u32|
            n <= 999_999_999 && string.spec_bytes() == seq![45u8] + #[trigger] arith::decimal_bytes(
                s as nat,
                n as nat,
            ) ==> if s == 0 && n == 0 {
                r == Ok::<Duration, String>(Duration { secs: 0, nanos: 0, is_negative: false })
            } else {
                r is Err
            },
        ({
            // an exponent outside -1022..=1023 is rejected
            let inp = string.spec_bytes();
            let len = inp.len() as int;
            let n1 = repr_parser::digit_run(inp, 0);
            (len > 0 && repr_parser::is_digit_byte(inp[0]) && n1 < len && (inp[n1] == 101
                || inp[n1] == 69)) ==> ({
                let esigned = n1 + 1 < len && (inp[n1 + 1] == 43 || inp[n1 + 1] == 45);
                let eneg = n1 + 1 < len && inp[n1 + 1] == 45;
                let ep = if esigned {
                    n1 + 2
                } else {
                    n1 + 1
                };
                let nrun = repr_parser::digit_run(inp, ep);
                let mag = arith::seq_val(arith::digit_vals(inp.subrange(ep, ep + nrun))) as int;
                let v = if eneg {
                    -mag
                } else {
                    mag
                };
                (nrun >= 1 && (v > 1023 || v < -1022)) ==> r is Err
            })
        }),
{
    let mut config = Config::new();
    config.min_exponent = -1022;
    config.max_exponent = 1023;
    let units = PlainTimeUnits {  };
    let mut scanner = repr_parser::ReprParser::new(string, &config, &units);
    let ghost cfg = config;
    let ghost inp = string.spec_bytes();
    match scanner.parse() {
        Err(_) => {
            proof {
                // a canonical decimal form, signed or not, always scans
                assert(inp.subrange(0, inp.len() as int) =~= inp);
                assert forall|s: u64, n: u32|
                    n <= 999_999_999 && (inp == #[trigger] arith::decimal_bytes(s as nat, n as nat)
                        || inp == seq![43u8] + arith::decimal_bytes(s as nat, n as nat) || inp
                        == seq![45u8] + arith::decimal_bytes(s as nat, n as nat)) implies false by {
                    arith::lemma_dec_digits_val(s as nat);
                    arith::lemma_frac9(n as nat);
                    arith::lemma_ascii_digits_roundtrip(arith::dec_digits(s as nat));
                    arith::lemma_ascii_digits_roundtrip(arith::frac9(n as nat));
                    if inp == arith::decimal_bytes(s as nat, n as nat) {
                        repr_parser::lemma_decimal_windows(inp, 0, s, n, cfg);
                    } else {
                        assert(inp.subrange(1, inp.len() as int) =~= arith::decimal_bytes(
                            s as nat,
                            n as nat,
                        ));
                        repr_parser::lemma_decimal_windows(inp, 1, s, n, cfg);
                    }
                }
                assert forall|s: u64|
                    (inp == #[trigger] arith::ascii_digits(arith::dec_digits(s as nat)) || inp
                        == seq![43u8] + arith::ascii_digits(arith::dec_digits(s as nat)) || inp
                        == seq![45u8] + arith::ascii_digits(arith::dec_digits(s as nat)))
                    implies false by {
                    arith::lemma_dec_digits_val(s as nat);
                    arith::lemma_ascii_digits_roundtrip(arith::dec_digits(s as nat));
                    if inp == arith::ascii_digits(arith::dec_digits(s as nat)) {
                        repr_parser::lemma_integer_windows(inp, 0, s, cfg);
                    } else {
                        assert(inp.subrange(1, inp.len() as int) =~= arith::ascii_digits(
                            arith::dec_digits(s as nat),
                        ));
                        repr_parser::lemma_integer_windows(inp, 1, s, cfg);
                    }
                }
            }
            Err("Error parsing duration".to_owned())
        },
        Ok(p) => {
            let mut repr = p.0;
            // a unit token is validated by the scan but never scales the
            // result: the plain grammar reads everything as seconds
            repr.unit = TimeUnit::Second;
            repr.multiplier = Multiplier(1, 0);
            let res = repr.parse(false, Multiplier(1, 0), None);
            proof {
                assert(inp.subrange(0, inp.len() as int) =~= inp);
                assert forall|s: u64, n: u32|
                    n <= 999_999_999 && (inp == #[trigger] arith::decimal_bytes(s as nat, n as nat)
                        || inp == seq![43u8] + arith::decimal_bytes(s as nat, n as nat)) implies res
                    == Ok::<Duration, ParseError>(
                    Duration { secs: s, nanos: n, is_negative: false },
                ) by {
                    arith::lemma_dec_digits_val(s as nat);
                    arith::lemma_frac9(n as nat);
                    arith::lemma_ascii_digits_roundtrip(arith::dec_digits(s as nat));
                    arith::lemma_ascii_digits_roundtrip(arith::frac9(n as nat));
                    if inp == arith::decimal_bytes(s as nat, n as nat) {
                        repr_parser::lemma_decimal_windows(inp, 0, s, n, cfg);
                    } else {
                        assert(inp.subrange(1, inp.len() as int) =~= arith::decimal_bytes(
                            s as nat,
                            n as nat,
                        ));
                        repr_parser::lemma_decimal_windows(inp, 1, s, n, cfg);
                    }
                    let dw = arith::strip_zeros(arith::dec_digits(s as nat));
                    assert(repr.digits@ == dw + arith::frac9(n as nat));
                    assert(repr.whole_len() == dw.len());
                    repr::lemma_decimal_round_trip(repr, false, dw, s, n);
                }
                assert forall|s: u64|
                    (inp == #[trigger] arith::ascii_digits(arith::dec_digits(s as nat)) || inp
                        == seq![43u8] + arith::ascii_digits(arith::dec_digits(s as nat)))
                    implies res == Ok::<Duration, ParseError>(
                    Duration { secs: s, nanos: 0, is_negative: false },
                ) by {
                    arith::lemma_dec_digits_val(s as nat);
                    arith::lemma_ascii_digits_roundtrip(arith::dec_digits(s as nat));
                    if inp == arith::ascii_digits(arith::dec_digits(s as nat)) {
                        repr_parser::lemma_integer_windows(inp, 0, s, cfg);
                    } else {
                        assert(inp.subrange(1, inp.len() as int) =~= arith::ascii_digits(
                            arith::dec_digits(s as nat),
                        ));
                        repr_parser::lemma_integer_windows(inp, 1, s, cfg);
                    }
                    let dw = arith::strip_zeros(arith::dec_digits(s as nat));
                    assert(repr.digits@ == dw);
                    assert(repr.whole_len() == dw.len());
                    repr::lemma_integer_round_trip(repr, false, dw, s);
                }
                assert forall|s: u64|
                    inp == seq![45u8] + #[trigger] arith::ascii_digits(arith::dec_digits(s as nat))
                    implies res == (if s == 0 {
                    Ok::<Duration, ParseError>(Duration { secs: 0, nanos: 0, is_negative: false })
                } else {
                    Err::<Duration, ParseError>(ParseError::NegativeNumber)
                }) by {
                    arith::lemma_dec_digits_val(s as nat);
                    arith::lemma_ascii_digits_roundtrip(arith::dec_digits(s as nat));
                    assert(inp.subrange(1, inp.len() as int) =~= arith::ascii_digits(
                        arith::dec_digits(s as nat),
                    ));
                    repr_parser::lemma_integer_windows(inp, 1, s, cfg);
                    let dw = arith::strip_zeros(arith::dec_digits(s as nat));
                    assert(repr.digits@ == dw);
                    assert(repr.whole_len() == dw.len());
                    repr::lemma_integer_round_trip(repr, false, dw, s);
                }
                assert forall|s: u64, n: u32|
                    n <= 999_999_999 && inp == seq![45u8] + #[trigger] arith::decimal_bytes(
                        s as nat,
                        n as nat,
                    ) implies res == (if s == 0 && n == 0 {
                    Ok::<Duration, ParseError>(Duration { secs: 0, nanos: 0, is_negative: false })
                } else {
                    Err::<Duration, ParseError>(ParseError::NegativeNumber)
                }) by {
                    arith::lemma_dec_digits_val(s as nat);
                    arith::lemma_frac9(n as nat);
                    arith::lemma_ascii_digits_roundtrip(arith::dec_digits(s as nat));
                    arith::lemma_ascii_digits_roundtrip(arith::frac9(n as nat));
                    assert(inp.subrange(1, inp.len() as int) =~= arith::decimal_bytes(
                        s as nat,
                        n as nat,
                    ));
                    repr_parser::lemma_decimal_windows(inp, 1, s, n, cfg);
                    let dw = arith::strip_zeros(arith::dec_digits(s as nat));
                    assert(repr.digits@ == dw + arith::frac9(n as nat));
                    assert(repr.whole_len() == dw.len());
                    repr::lemma_decimal_round_trip(repr, false, dw, s, n);
                }
            }
            match res {
                Ok(d) => Ok(d),
                Err(_) => Err("Error parsing duration".to_owned()),
            }
        },
    }
}

} // verus!
