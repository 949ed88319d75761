use fundu::duration::Duration;
use fundu::parse_duration;

fn dur(secs: u64, nanos: u32) -> Duration {
    Duration {
        secs,
        nanos,
        is_negative: false,
    }
}

fn max_duration() -> Duration {
    dur(u64::MAX, 999_999_999)
}

#[test]
fn test_parse_duration_with_illegal_argument_then_error() {
    for source in [
        "",
        "  1",
        "1   ",
        "  \t\n",
        ".",
        "+",
        "e-10",
        "-e1",
        "-.e1",
        "-1",
        "-1.0",
        "-0.000000001",
    ] {
        assert!(parse_duration(source).is_err(), "{source}");
    }
}

#[test]
fn test_parse_duration_when_simple_arguments_are_valid() {
    let max_secs = u64::MAX.to_string();
    let cases: &[(&str, Duration)] = &[
        ("0", dur(0, 0)),
        ("0.0", dur(0, 0)),
        (".0", dur(0, 0)),
        ("0.", dur(0, 0)),
        ("1", dur(1, 0)),
        ("1.1", dur(1, 100_000_000)),
        ("0.999999999", dur(0, 999_999_999)),
        ("1.999999999", dur(1, 999_999_999)),
        ("1234.123456789", dur(1234, 123_456_789)),
        (&max_secs, dur(u64::MAX, 0)),
        ("000000100", dur(100, 0)),
        ("00000010.0", dur(10, 0)),
        ("10.010000000", dur(10, 10_000_000)),
    ];
    for (source, expected) in cases {
        assert_eq!(parse_duration(source).unwrap(), *expected, "{source}");
    }
}

#[test]
fn test_parse_duration_when_arguments_contain_exponent() {
    let higher_than_max = format!("{}9.999999999e-1", u64::MAX);
    let max_digits = format!("{}.0e-1022", "1".repeat(1042));
    let more_than_max_digits = format!("{}.0e-1022", "1".repeat(1043));
    let capped_nanos = format!("0.{}9e+1023", "0".repeat(1032));
    let not_capped_nanos = format!("0.{}9e+1023", "0".repeat(1031));
    let cases: &[(&str, Duration)] = &[
        ("1.1e0", dur(1, 100_000_000)),
        ("1.1e-0", dur(1, 100_000_000)),
        ("1.09e1", dur(10, 900_000_000)),
        ("1.09E1", dur(10, 900_000_000)),
        ("0.0000000001e1", dur(0, 1)),
        (&higher_than_max, max_duration()),
        ("0.1000000001e+1", dur(1, 1)),
        ("1.00000001e-1", dur(0, 100_000_001)),
        ("10.00000001e-1", dur(1, 1)),
        ("1.0e-1022", dur(0, 0)),
        ("1.0e1023", max_duration()),
        (&max_digits, dur(11_111_111_111_111_111_111, 111_111_111)),
        (&more_than_max_digits, max_duration()),
        (&capped_nanos, dur(0, 0)),
        (&not_capped_nanos, dur(0, 9)),
    ];
    for (source, expected) in cases {
        assert_eq!(parse_duration(source).unwrap(), *expected, "{source}");
    }
}

#[test]
fn test_parse_duration_when_arguments_with_illegal_exponent_then_error() {
    let i16_overflow = format!("1e{}", i16::MIN as i32 - 1);
    for source in ["1e", "1e+F", "1e1024", "1e-1023", i16_overflow.as_str()] {
        assert!(parse_duration(source).is_err(), "{source}");
    }
}

#[test]
fn test_parse_duration_when_precision_of_float_would_be_insufficient_then_still_parse_exact() {
    let high_value = format!("{}.1", u64::MAX);
    let cases: &[(&str, Duration)] = &[
        ("1.99999999999999999", dur(1, 999_999_999)),
        (&high_value, dur(u64::MAX, 100_000_000)),
    ];
    for (source, expected) in cases {
        assert_eq!(parse_duration(source).unwrap(), *expected, "{source}");
    }
}

#[test]
fn test_parse_duration_when_arguments_are_capped_then_max_duration_or_min_nanos() {
    let higher = format!("{}", u64::MAX as u128 + 1);
    let higher_fract = format!("{}.0", u64::MAX as u128 + 1);
    let cases: &[(&str, Duration)] = &[
        ("1.0000000001", dur(1, 0)),
        ("1.99999999999", dur(1, 999_999_999)),
        (&higher, max_duration()),
        (&higher_fract, max_duration()),
    ];
    for (source, expected) in cases {
        assert_eq!(parse_duration(source).unwrap(), *expected, "{source}");
    }
}

#[test]
fn test_parse_duration_when_arguments_have_a_sign() {
    let cases: &[(&str, Duration)] = &[
        ("+0", dur(0, 0)),
        ("+0.0", dur(0, 0)),
        ("-0", dur(0, 0)),
        ("-0.0", dur(0, 0)),
        ("+1.0", dur(1, 0)),
    ];
    for (source, expected) in cases {
        assert_eq!(parse_duration(source).unwrap(), *expected, "{source}");
    }
}

#[test]
fn test_parse_duration_when_arguments_are_infinity_values() {
    for source in ["inf", "iNf", "infinity", "InfiNitY"] {
        assert_eq!(parse_duration(source).unwrap(), max_duration(), "{source}");
    }
}

#[test]
fn test_parse_duration_when_arguments_are_illegal_infinity_values_then_error() {
    for source in ["-inf", "-infinity", "infin", "inf1.0"] {
        assert!(parse_duration(source).is_err(), "{source}");
    }
}

#[test]
fn test_parse_duration_canonical_decimal_forms() {
    // the canonical nine-digit decimal form of (s, n), with every sign
    let cases: &[(u64, u32)] = &[(0, 0), (1, 1), (123, 456), (u64::MAX, 999_999_999)];
    for (s, n) in cases {
        let plain = format!("{}.{:09}", s, n);
        let plus = format!("+{}", plain);
        assert_eq!(parse_duration(&plain).unwrap(), dur(*s, *n), "{plain}");
        assert_eq!(parse_duration(&plus).unwrap(), dur(*s, *n), "{plus}");
    }
    assert_eq!(parse_duration("-0.000000000").unwrap(), dur(0, 0));
    assert!(parse_duration("-123.000000456").is_err());
    assert_eq!(parse_duration("42").unwrap(), dur(42, 0));
    assert_eq!(parse_duration("+42").unwrap(), dur(42, 0));
    assert_eq!(parse_duration("-0").unwrap(), dur(0, 0));
    assert!(parse_duration("-42").is_err());
}

#[test]
fn test_parse_duration_accepts_but_ignores_legacy_unit_tokens() {
    // the plain parser validates a trailing unit token but always reads the
    // number as seconds
    for source in ["1ns", "1mms", "1ms", "1s", "1m", "1h", "1d"] {
        assert_eq!(parse_duration(source).unwrap(), dur(1, 0), "{source}");
    }
    assert!(parse_duration("1x").is_err());
    assert!(parse_duration("1nsns").is_err());
}
