use fundu::builder::DurationParserBuilder;
use fundu::config::{Config, ConfigBuilder, Delimiter};
use fundu::duration::Duration;
use fundu::error::ParseError;
use fundu::parse::Parser;
use fundu::standard::{DurationParser, TimeUnits};
use fundu::time::{Multiplier, TimeUnit};

fn dur(secs: u64, nanos: u32) -> Duration {
    Duration {
        secs,
        nanos,
        is_negative: false,
    }
}

fn neg(secs: u64, nanos: u32) -> Duration {
    Duration {
        secs,
        nanos,
        is_negative: true,
    }
}

fn max_duration() -> Duration {
    dur(u64::MAX, 999_999_999)
}

#[test]
fn test_parser_scenario_plain_seconds() {
    let parser = DurationParser::new();
    assert_eq!(parser.parse("1").unwrap(), dur(1, 0));
}

#[test]
fn test_parser_scenario_one_nano_more() {
    let parser = DurationParser::new();
    assert_eq!(parser.parse("1.000000001").unwrap(), dur(1, 1));
}

#[test]
fn test_parser_scenario_max_seconds_with_max_nanos() {
    let parser = DurationParser::new();
    assert_eq!(
        parser.parse("18446744073709551615.999999999").unwrap(),
        dur(u64::MAX, 999_999_999)
    );
}

#[test]
fn test_parser_scenario_saturates_above_max_seconds() {
    let parser = DurationParser::new();
    assert_eq!(
        parser.parse("18446744073709551616.0").unwrap(),
        max_duration()
    );
}

#[test]
fn test_parser_scenario_infinity_tokens() {
    let parser = DurationParser::new();
    for source in ["inf", "Infinity", "+INF"] {
        assert_eq!(parser.parse(source).unwrap(), max_duration(), "{source}");
    }
}

#[test]
fn test_parser_scenario_negative_zero_is_zero() {
    let parser = DurationParser::new();
    assert_eq!(parser.parse("-0.0").unwrap(), dur(0, 0));
}

#[test]
fn test_parser_scenario_negative_number_error() {
    let parser = DurationParser::new();
    assert_eq!(parser.parse("-1"), Err(ParseError::NegativeNumber));
}

#[test]
fn test_parser_scenario_exponent_overflow_errors() {
    let mut config = Config::new();
    config.min_exponent = -1022;
    config.max_exponent = 1023;
    let parser = Parser::with_config(config);
    let units = TimeUnits::new();
    assert_eq!(
        parser.parse("1e1024", &units, None),
        Err(ParseError::PositiveExponentOverflow)
    );
    assert_eq!(
        parser.parse("1e-1023", &units, None),
        Err(ParseError::NegativeExponentOverflow)
    );
    assert_eq!(parser.parse("1e1023", &units, None).unwrap(), max_duration());
}

#[test]
fn test_parser_scenario_parse_multiple_sums_segments() {
    let parser = DurationParserBuilder::new()
        .default_time_units()
        .parse_multiple(Delimiter::of_byte(b' '))
        .build();
    assert_eq!(parser.parse("1s 500ms").unwrap(), dur(1, 500_000_000));
}

#[test]
fn test_parser_scenario_ago_negates() {
    let config = ConfigBuilder::new()
        .allow_negative()
        .allow_ago(Delimiter::of_byte(b' '))
        .build();
    let parser = Parser::with_config(config);
    let units = TimeUnits::with_all_time_units();
    assert_eq!(parser.parse("2h ago", &units, None).unwrap(), neg(7200, 0));
}

#[test]
fn test_parser_scenario_fraction_only() {
    let parser = DurationParser::new();
    assert_eq!(parser.parse(".5").unwrap(), dur(0, 500_000_000));
}

#[test]
fn test_parser_scenario_whole_only_with_point() {
    let parser = DurationParser::new();
    assert_eq!(parser.parse("5.").unwrap(), dur(5, 0));
}

#[test]
fn test_parser_scenario_lone_point_is_syntax_error_at_zero() {
    let parser = DurationParser::new();
    assert!(matches!(parser.parse("."), Err(ParseError::Syntax(0, _))));
}

#[test]
fn test_parser_scenario_bare_unit_with_optional_number() {
    let parser = DurationParserBuilder::new()
        .default_time_units()
        .number_is_optional()
        .build();
    assert_eq!(parser.parse("ns").unwrap(), dur(0, 1));
}

#[test]
fn test_parser_optional_number_with_exponent_only() {
    let parser = DurationParserBuilder::new()
        .default_time_units()
        .number_is_optional()
        .build();
    // a bare exponent scales the implicit 1
    assert_eq!(parser.parse("e-9").unwrap(), dur(0, 1));
    assert_eq!(parser.parse("e-3Ms").unwrap(), dur(0, 1));
}

#[test]
fn test_parser_standard_units_scale_exactly() {
    let parser = DurationParser::with_all_time_units();
    assert_eq!(parser.parse("1ns").unwrap(), dur(0, 1));
    assert_eq!(parser.parse("1Ms").unwrap(), dur(0, 1_000));
    assert_eq!(parser.parse("1ms").unwrap(), dur(0, 1_000_000));
    assert_eq!(parser.parse("1s").unwrap(), dur(1, 0));
    assert_eq!(parser.parse("1m").unwrap(), dur(60, 0));
    assert_eq!(parser.parse("1h").unwrap(), dur(3600, 0));
    assert_eq!(parser.parse("1d").unwrap(), dur(86400, 0));
    assert_eq!(parser.parse("1w").unwrap(), dur(604800, 0));
    assert_eq!(parser.parse("1M").unwrap(), dur(2_629_800, 0));
    assert_eq!(parser.parse("1y").unwrap(), dur(31_557_600, 0));
    assert_eq!(parser.parse("1.5h").unwrap(), dur(5400, 0));
}

#[test]
fn test_parser_empty_input_is_empty_error() {
    let parser = DurationParser::new();
    assert_eq!(parser.parse(""), Err(ParseError::Empty));
}

#[test]
fn test_parser_unknown_unit_is_time_unit_error() {
    let parser = DurationParser::new();
    assert!(matches!(parser.parse("1x"), Err(ParseError::TimeUnit(1, _))));
}

#[test]
fn test_parser_negative_infinity_error() {
    let parser = DurationParser::new();
    assert_eq!(parser.parse("-inf"), Err(ParseError::NegativeInfinity));
}

#[test]
fn test_parser_exponent_equivalent_inputs_agree() {
    // inputs denoting the same rational number parse to the same duration
    let parser = DurationParser::new();
    let a = parser.parse("1.5e2").unwrap();
    let b = parser.parse("150").unwrap();
    let c = parser.parse("0.15e3").unwrap();
    let d = parser.parse("1500e-1").unwrap();
    assert_eq!(a, dur(150, 0));
    assert_eq!(a, b);
    assert_eq!(a, c);
    assert_eq!(a, d);
}

#[test]
fn test_parser_decimal_form_round_trips() {
    // the decimal form of (s, n) parses back to exactly (s, n)
    let parser = DurationParser::new();
    let cases: &[(u64, u32)] = &[
        (0, 0),
        (1, 1),
        (123, 456),
        (u64::MAX, 999_999_999),
        (999, 100_000_000),
    ];
    for (s, n) in cases {
        let source = format!("{}.{:09}", s, n);
        assert_eq!(parser.parse(&source).unwrap(), dur(*s, *n), "{source}");
    }
}

#[test]
fn test_parser_multiple_equals_saturating_sum_of_independent_parses() {
    let multi = DurationParserBuilder::new()
        .default_time_units()
        .parse_multiple(Delimiter::of_byte(b' '))
        .build();
    let single = DurationParser::new();
    let combined = multi.parse("1.5h 2e+2ns 55s").unwrap();
    let independent = single
        .parse("1.5h")
        .unwrap()
        .saturating_add(single.parse("2e+2ns").unwrap())
        .saturating_add(single.parse("55s").unwrap());
    assert_eq!(combined, independent);
    assert_eq!(combined, dur(5455, 200));
}

#[test]
fn test_parser_multiple_segments_without_delimiter() {
    let parser = DurationParserBuilder::new()
        .default_time_units()
        .parse_multiple(Delimiter::of_byte(b' '))
        .build();
    assert_eq!(parser.parse("55s500ms").unwrap(), dur(55, 500_000_000));
    assert_eq!(parser.parse("1\u{20}1").unwrap(), dur(2, 0));
    assert_eq!(
        parser.parse("300ms20s 5d").unwrap(),
        dur(5 * 60 * 60 * 24 + 20, 300_000_000)
    );
}

#[test]
fn test_parser_multiple_saturates_at_max() {
    let parser = DurationParserBuilder::new()
        .default_time_units()
        .parse_multiple(Delimiter::of_byte(b' '))
        .build();
    assert_eq!(
        parser.parse("18446744073709551615s 1s").unwrap(),
        dur(u64::MAX, 999_999_999)
    );
}

#[test]
fn test_parser_multiple_bare_fraction_segments() {
    let parser = DurationParserBuilder::new()
        .default_time_units()
        .parse_multiple(Delimiter::of_byte(b' '))
        .build();
    assert_eq!(parser.parse("1.   .1").unwrap(), dur(1, 100_000_000));
    assert_eq!(parser.parse("2h").unwrap(), dur(2 * 60 * 60, 0));
}

#[test]
fn test_parser_multiple_input_may_not_end_with_delimiter() {
    let parser = DurationParserBuilder::new()
        .default_time_units()
        .parse_multiple(Delimiter::of_byte(b' '))
        .build();
    // the error is anchored at the start of the trailing run
    assert!(matches!(parser.parse("1s "), Err(ParseError::Syntax(2, _))));
    assert!(matches!(parser.parse("1   "), Err(ParseError::Syntax(1, _))));
}

#[test]
fn test_parser_conjunctions_join_segments() {
    let and_word: &[u8] = b"and";
    let conjunctions: &[&[u8]] = &[and_word];
    let config = ConfigBuilder::new()
        .parse_multiple(Delimiter::of_byte(b' '), Some(conjunctions))
        .build();
    let parser = Parser::with_config(config);
    let units = TimeUnits::with_default_time_units();
    assert_eq!(parser.parse("1s and 2s", &units, None).unwrap(), dur(3, 0));
    assert!(parser.parse("1s and", &units, None).is_err());
}

#[test]
fn test_parser_delimiter_between_number_and_unit() {
    let parser = DurationParserBuilder::new()
        .default_time_units()
        .allow_delimiter(Delimiter::whitespace())
        .build();
    assert_eq!(parser.parse("123 \t\n\u{c}\rns").unwrap(), dur(0, 123));
    assert!(parser.parse("123\n").is_err());
}

#[test]
fn test_parser_disable_fraction_rejects_point() {
    let parser = DurationParserBuilder::new()
        .default_time_units()
        .disable_fraction()
        .build();
    assert!(matches!(
        parser.parse("123.456"),
        Err(ParseError::Syntax(3, _))
    ));
    assert_eq!(parser.parse("123e-2").unwrap(), dur(1, 230_000_000));
    assert_eq!(parser.parse("123ns").unwrap(), dur(0, 123));
}

#[test]
fn test_parser_disable_exponent_rejects_e() {
    let parser = DurationParserBuilder::new()
        .default_time_units()
        .disable_exponent()
        .build();
    assert!(matches!(
        parser.parse("123e+1"),
        Err(ParseError::Syntax(3, _))
    ));
}

#[test]
fn test_parser_disable_infinity_rejects_inf() {
    let parser = DurationParserBuilder::new().disable_infinity().build();
    assert!(matches!(parser.parse("inf"), Err(ParseError::Syntax(0, _))));
    assert!(matches!(
        parser.parse("infinity"),
        Err(ParseError::Syntax(0, _))
    ));
    assert!(matches!(parser.parse("+inf"), Err(ParseError::Syntax(1, _))));
}

#[test]
fn test_parser_default_unit_applies_to_bare_numbers() {
    let mut parser = DurationParser::with_all_time_units();
    parser.default_unit(TimeUnit::NanoSecond);
    assert_eq!(parser.parse("42").unwrap(), dur(0, 42));
}

#[test]
fn test_parser_outer_multiplier_scales_result() {
    let parser = Parser::new();
    let units = TimeUnits::with_default_time_units();
    assert_eq!(
        parser.parse("2", &units, Some(Multiplier(3, 0))).unwrap(),
        dur(6, 0)
    );
    assert_eq!(
        parser.parse("2", &units, Some(Multiplier(1, -3))).unwrap(),
        dur(0, 2_000_000)
    );
}
