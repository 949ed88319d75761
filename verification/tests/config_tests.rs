use fundu::config::{Config, ConfigBuilder, Delimiter};
use fundu::time::{Multiplier, TimeUnit};

#[test]
fn test_default_for_config() {
    assert_eq!(Config::default(), Config::new());
}

#[test]
fn test_config_builder_chains_every_option() {
    let delimiter = Delimiter::of_byte(b' ');
    let config = ConfigBuilder::new()
        .allow_delimiter(delimiter)
        .default_unit(TimeUnit::NanoSecond)
        .disable_exponent()
        .disable_fraction()
        .disable_infinity()
        .number_is_optional()
        .allow_negative()
        .parse_multiple(delimiter, None)
        .allow_ago(delimiter)
        .build();
    assert_eq!(config.allow_delimiter, Some(delimiter));
    assert_eq!(config.default_unit, TimeUnit::NanoSecond);
    assert!(config.disable_exponent);
    assert!(config.disable_fraction);
    assert!(config.disable_infinity);
    assert!(config.number_is_optional);
    assert!(config.allow_negative);
    assert_eq!(config.parse_multiple_delimiter, Some(delimiter));
    assert_eq!(config.allow_ago, Some(delimiter));
}

#[test]
fn test_config_new_defaults() {
    let config = Config::new();
    assert_eq!(config.default_unit, TimeUnit::Second);
    assert_eq!(config.default_multiplier, Multiplier(1, 0));
    assert_eq!(config.max_exponent, i16::MAX);
    assert_eq!(config.min_exponent, i16::MIN);
    assert!(!config.disable_exponent);
    assert!(!config.disable_fraction);
    assert!(!config.disable_infinity);
    assert!(!config.number_is_optional);
    assert!(!config.allow_negative);
    assert_eq!(config.allow_delimiter, None);
    assert_eq!(config.parse_multiple_delimiter, None);
    assert_eq!(config.parse_multiple_conjunctions, None);
    assert_eq!(config.allow_ago, None);
}

#[test]
fn test_delimiter_whitespace_matches_ascii_whitespace() {
    let d = Delimiter::whitespace();
    assert!(d.matches(b' '));
    assert!(d.matches(b'\t'));
    assert!(d.matches(b'\n'));
    assert!(d.matches(0x0b));
    assert!(d.matches(0x0c));
    assert!(d.matches(b'\r'));
    assert!(!d.matches(b'a'));
    assert!(!d.matches(0x80));
    assert!(!d.matches(0xff));
}

#[test]
fn test_delimiter_of_byte_matches_only_that_byte() {
    let d = Delimiter::of_byte(b',');
    assert!(d.matches(b','));
    assert!(!d.matches(b' '));
    assert!(!d.matches(0xff));
}
