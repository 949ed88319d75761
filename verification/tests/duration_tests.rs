use fundu::duration::{saturating_sum, Duration};
use fundu::systemd::TimeSpanParser;

fn dur(secs: u64, nanos: u32) -> Duration {
    Duration {
        secs,
        nanos,
        is_negative: false,
    }
}

fn neg(secs: u64, nanos: u32) -> Duration {
    Duration {
        secs,
        nanos,
        is_negative: true,
    }
}

#[test]
fn test_duration_new_normalizes_nanos_and_zero_sign() {
    assert_eq!(Duration::new(false, 1, 1_500_000_000), dur(2, 500_000_000));
    assert_eq!(Duration::new(true, 0, 0), dur(0, 0));
    assert_eq!(Duration::new(true, 1, 0), neg(1, 0));
    assert_eq!(
        Duration::new(false, u64::MAX, 2_000_000_000),
        dur(u64::MAX, 999_999_999)
    );
}

#[test]
fn test_duration_saturating_add_same_sign() {
    assert_eq!(dur(1, 0).saturating_add(dur(2, 0)), dur(3, 0));
    assert_eq!(
        dur(1, 600_000_000).saturating_add(dur(2, 700_000_000)),
        dur(4, 300_000_000)
    );
    assert_eq!(neg(1, 0).saturating_add(neg(2, 0)), neg(3, 0));
}

#[test]
fn test_duration_saturating_add_saturates_at_max() {
    assert_eq!(
        dur(u64::MAX, 999_999_999).saturating_add(dur(0, 1)),
        dur(u64::MAX, 999_999_999)
    );
    assert_eq!(
        dur(u64::MAX, 0).saturating_add(dur(1, 0)),
        dur(u64::MAX, 999_999_999)
    );
    assert_eq!(
        neg(u64::MAX, 999_999_999).saturating_add(neg(0, 1)),
        neg(u64::MAX, 999_999_999)
    );
}

#[test]
fn test_duration_saturating_add_opposite_signs() {
    assert_eq!(dur(3, 0).saturating_add(neg(1, 0)), dur(2, 0));
    assert_eq!(dur(1, 0).saturating_add(neg(3, 0)), neg(2, 0));
    assert_eq!(dur(1, 0).saturating_add(neg(1, 0)), dur(0, 0));
    assert_eq!(
        dur(2, 100_000_000).saturating_add(neg(1, 600_000_000)),
        dur(0, 500_000_000)
    );
}

#[test]
fn test_duration_lt_orders_by_signed_value() {
    assert!(dur(1, 0).lt(&dur(2, 0)));
    assert!(dur(1, 5).lt(&dur(1, 6)));
    assert!(!dur(1, 6).lt(&dur(1, 6)));
    assert!(neg(1, 0).lt(&dur(0, 0)));
    assert!(neg(2, 0).lt(&neg(1, 0)));
    assert!(!dur(0, 0).lt(&neg(1, 0)));
}

#[test]
fn test_saturating_sum_folds_left_to_right() {
    let ds = vec![dur(1, 0), dur(2, 500_000_000), neg(1, 0)];
    assert_eq!(saturating_sum(&ds), dur(2, 500_000_000));
    let empty: Vec<Duration> = vec![];
    assert_eq!(saturating_sum(&empty), dur(0, 0));
}

#[test]
fn test_time_span_parser_systemd_aliases() {
    let parser = TimeSpanParser::new();
    assert_eq!(parser.parse("1").unwrap(), dur(1, 0));
    assert_eq!(parser.parse("2min").unwrap(), dur(120, 0));
    assert_eq!(parser.parse("500ms").unwrap(), dur(0, 500_000_000));
    assert_eq!(parser.parse("1usec").unwrap(), dur(0, 1_000));
    assert_eq!(parser.parse("1\u{b5}s").unwrap(), dur(0, 1_000));
    assert_eq!(parser.parse("3hours").unwrap(), dur(10_800, 0));
    assert_eq!(parser.parse("1 w").unwrap(), dur(604_800, 0));
    assert_eq!(parser.parse("2h 30m").unwrap(), dur(9_000, 0));
    assert_eq!(parser.parse("min").unwrap(), dur(60, 0));
}

#[test]
fn test_time_span_parser_rejects_fraction_exponent_infinity() {
    let parser = TimeSpanParser::new();
    assert!(parser.parse("1.5s").is_err());
    assert!(parser.parse("1e2").is_err());
    assert!(parser.parse("inf").is_err());
}
