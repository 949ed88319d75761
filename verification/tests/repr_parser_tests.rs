use fundu::config::Config;
use fundu::repr_parser::ReprParser;
use fundu::standard::TimeUnits;

fn no_units() -> TimeUnits {
    TimeUnits::new()
}

#[test]
fn test_duration_repr_parser_parse_whole_when_more_than_max() {
    let config = Config::new();
    let input = "1".repeat(i16::MAX as usize + 100);
    let expected = vec![1u8; i16::MAX as usize + 33];
    let units = no_units();
    let mut parser = ReprParser::new(&input, &config, &units);
    assert_eq!(parser.parse().unwrap().0.digits, expected);
}

#[test]
fn test_duration_repr_parser_parse_fract_when_more_than_max() {
    let input = format!(".{}", "1".repeat(i16::MAX as usize + 100));
    let expected = vec![1u8; i16::MAX as usize + 25];
    let config = Config::new();
    let units = no_units();
    let mut parser = ReprParser::new(&input, &config, &units);
    let result = parser.parse().unwrap();
    let digits = result.0.digits;
    assert_eq!(digits.len(), expected.len());
    assert_eq!(digits, expected);
}

#[test]
fn test_duration_repr_parser_parse_8_digits_when_more_than_8() {
    let config = Config::new();
    let units = no_units();
    let mut parser = ReprParser::new("00000000a", &config, &units);
    assert_eq!(parser.parse_8_digits(), Some(0));
    assert_eq!(parser.get_remainder(), &[b'a']);
    assert_eq!(parser.current_pos(), 8);
}

#[test]
fn test_duration_repr_parser_is_8_digits_when_8_digits() {
    let config = Config::new();
    let units = no_units();
    for input in ["00000000", "99999999", "012345678", "0123456789"] {
        let parser = ReprParser::new(input, &config, &units);
        assert!(parser.is_8_digits(), "{input}");
    }
}

#[test]
fn test_duration_repr_parser_is_8_digits_when_not_8_digits() {
    let config = Config::new();
    let units = no_units();
    // '/' is one below '0' and ':' one above '9'
    for input in ["", "0000000", "////////", "::::::::", "a0000000"] {
        let parser = ReprParser::new(input, &config, &units);
        assert!(!parser.is_8_digits(), "{input}");
    }
}

#[test]
fn test_duration_repr_parser_parse_8_digits() {
    let config = Config::new();
    let units = no_units();
    let cases: &[(&str, Option<u64>)] = &[
        ("00000000", Some(0x0000000000000000)),
        ("00000001", Some(0x0100000000000000)),
        ("10000000", Some(0x0000000000000001)),
        ("99999999", Some(0x0909090909090909)),
    ];
    for (input, expected) in cases {
        let mut parser = ReprParser::new(input, &config, &units);
        assert_eq!(parser.parse_8_digits(), *expected, "{input}");
    }
}

#[test]
fn test_duration_repr_parser_parse_8_digits_when_not_8_digits() {
    let config = Config::new();
    let units = no_units();
    for input in ["", "a0000000", "9999999"] {
        let mut parser = ReprParser::new(input, &config, &units);
        assert_eq!(parser.parse_8_digits(), None, "{input}");
        assert_eq!(parser.get_remainder(), input.as_bytes());
        assert_eq!(parser.current_pos(), 0);
    }
}

#[test]
fn test_duration_repr_parser_parse_whole_strips_leading_zeros() {
    let config = Config::new();
    let units = no_units();
    // leading zeros of the whole part never reach the digit buffer
    let cases: &[(&str, &[u8])] = &[
        ("0", &[]),
        ("1", &[1]),
        ("9", &[9]),
        ("10", &[1, 0]),
        ("00000000", &[]),
        ("000000000000000", &[]),
        ("00000010", &[1, 0]),
        ("000000010", &[1, 0]),
        ("12345", &[1, 2, 3, 4, 5]),
        ("99999999", &[9, 9, 9, 9, 9, 9, 9, 9]),
        ("99999998", &[9, 9, 9, 9, 9, 9, 9, 8]),
        ("100000000", &[1, 0, 0, 0, 0, 0, 0, 0, 0]),
        ("100000001", &[1, 0, 0, 0, 0, 0, 0, 0, 1]),
        ("0000000011111111", &[1, 1, 1, 1, 1, 1, 1, 1]),
        ("1111111100000000", &[1, 1, 1, 1, 1, 1, 1, 1, 0, 0, 0, 0, 0, 0, 0, 0]),
        ("11111111000000001", &[1, 1, 1, 1, 1, 1, 1, 1, 0, 0, 0, 0, 0, 0, 0, 0, 1]),
        ("9999999999999999", &[9, 9, 9, 9, 9, 9, 9, 9, 9, 9, 9, 9, 9, 9, 9, 9]),
    ];
    for (input, expected) in cases {
        let mut parser = ReprParser::new(input, &config, &units);
        let repr = parser.parse().unwrap().0;
        assert_eq!(repr.digits.as_slice(), *expected, "{input}");
        assert_eq!(repr.whole.unwrap().0, expected.len(), "{input}");
    }
}

#[test]
fn test_duration_repr_parser_parse_fract_keeps_leading_zeros() {
    let config = Config::new();
    let units = no_units();
    let cases: &[(&str, &[u8])] = &[
        (".0", &[0]),
        (".1", &[1]),
        (".9", &[9]),
        (".10", &[1, 0]),
        (".01", &[0, 1]),
        (".001", &[0, 0, 1]),
        (".000000001", &[0, 0, 0, 0, 0, 0, 0, 0, 1]),
        (".12345", &[1, 2, 3, 4, 5]),
        (".99999999", &[9, 9, 9, 9, 9, 9, 9, 9]),
        (".99999998", &[9, 9, 9, 9, 9, 9, 9, 8]),
        (".123456789", &[1, 2, 3, 4, 5, 6, 7, 8, 9]),
    ];
    for (input, expected) in cases {
        let mut parser = ReprParser::new(input, &config, &units);
        let repr = parser.parse().unwrap().0;
        assert_eq!(repr.digits.as_slice(), *expected, "{input}");
        let fract = repr.fract.unwrap();
        assert_eq!(fract.0, 0, "{input}");
        assert_eq!(fract.1, expected.len(), "{input}");
    }
}
