use fundu::builder::{DurationParserBuilder, TimeUnitsChoice};
use fundu::config::{Config, Delimiter};
use fundu::standard::DurationParser;
use fundu::time::TimeUnit::{Hour, MicroSecond, Minute, NanoSecond, Week, Year};

#[test]
fn test_duration_parser_builder_when_new() {
    let builder = DurationParserBuilder::new();
    assert_eq!(builder.config, Config::new());
    assert_eq!(builder.time_units_choice, TimeUnitsChoice::NoUnits);
}

#[test]
fn test_duration_parser_builder_when_default_time_units() {
    let builder = DurationParserBuilder::new().default_time_units();
    assert_eq!(builder.time_units_choice, TimeUnitsChoice::Default);
}

#[test]
fn test_duration_parser_builder_when_all_time_units() {
    let builder = DurationParserBuilder::new().all_time_units();
    assert_eq!(builder.time_units_choice, TimeUnitsChoice::All);
}

#[test]
fn test_duration_parser_builder_when_custom_time_units() {
    let builder = DurationParserBuilder::new().custom_time_units(&[
        MicroSecond,
        Hour,
        Week,
        Year,
    ]);
    assert_eq!(
        builder.time_units_choice,
        TimeUnitsChoice::Custom(&[MicroSecond, Hour, Week, Year])
    );
}

#[test]
fn test_duration_parser_builder_when_default_unit() {
    let mut expected = Config::new();
    expected.default_unit = MicroSecond;

    let builder = DurationParserBuilder::new().default_unit(MicroSecond);

    assert_eq!(builder.config, expected);
}

#[test]
fn test_duration_parser_builder_when_allow_delimiter() {
    let builder = DurationParserBuilder::new().allow_delimiter(Delimiter::of_byte(b' '));

    assert!(builder.config.allow_delimiter.unwrap().matches(b' '));
}

#[test]
fn test_duration_parser_builder_when_disable_fraction() {
    let mut expected = Config::new();
    expected.disable_fraction = true;

    let builder = DurationParserBuilder::new().disable_fraction();

    assert_eq!(builder.config, expected);
}

#[test]
fn test_duration_parser_builder_when_disable_exponent() {
    let mut expected = Config::new();
    expected.disable_exponent = true;

    let builder = DurationParserBuilder::new().disable_exponent();

    assert_eq!(builder.config, expected);
}

#[test]
fn test_duration_parser_builder_when_disable_infinity() {
    let mut expected = Config::new();
    expected.disable_infinity = true;

    let builder = DurationParserBuilder::new().disable_infinity();

    assert_eq!(builder.config, expected);
}

#[test]
fn test_duration_parser_builder_when_number_is_optional() {
    let mut expected = Config::new();
    expected.number_is_optional = true;

    let builder = DurationParserBuilder::new().number_is_optional();

    assert_eq!(builder.config, expected);
}

#[test]
fn test_duration_parser_builder_when_parse_multiple() {
    let builder = DurationParserBuilder::new().parse_multiple(Delimiter::of_byte(0x7f));

    assert!(builder.config.parse_multiple_delimiter.unwrap().matches(0x7f));
}

#[test]
fn test_duration_parser_builder_build() {
    assert_eq!(
        DurationParserBuilder::new().default_time_units().build(),
        DurationParser::new()
    );
    assert_eq!(
        DurationParserBuilder::new().all_time_units().build(),
        DurationParser::with_all_time_units()
    );
    assert_eq!(
        DurationParserBuilder::new().build(),
        DurationParser::without_time_units()
    );
    assert_eq!(
        DurationParserBuilder::new()
            .custom_time_units(&[NanoSecond, Minute])
            .build(),
        DurationParser::with_time_units(&[NanoSecond, Minute])
    );
}
