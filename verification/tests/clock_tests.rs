use ghdown::clock::{deadline, display_datetime, format_datetime, is_earlier, parse_datetime, Moment, MAX_TIMESTAMP, MIN_TIMESTAMP};

#[test]
fn chrono_range_bounds() {
    assert!(chrono::DateTime::from_timestamp(MIN_TIMESTAMP, 0).is_some());
    assert!(chrono::DateTime::from_timestamp(MIN_TIMESTAMP - 1, 0).is_none());
    assert!(chrono::DateTime::from_timestamp(MAX_TIMESTAMP, 999_999_999).is_some());
    assert!(chrono::DateTime::from_timestamp(MAX_TIMESTAMP + 1, 0).is_none());
}

#[test]
fn formats_and_parses() {
    assert_eq!(format_datetime(Moment { secs: 0, nanos: 0 }), "1970-01-01T00:00:00");
    assert_eq!(format_datetime(Moment { secs: 1704164645, nanos: 500_000_000 }), "2024-01-02T03:04:05.500");
    assert_eq!(parse_datetime("2024-01-02T03:04:05"), Some(Moment { secs: 1704164645, nanos: 0 }));
    assert_eq!(parse_datetime("2024-01-02T03:04:05.25"), Some(Moment { secs: 1704164645, nanos: 250_000_000 }));
    assert_eq!(parse_datetime("not a date"), None);
    // the written form separates date and time by a space, which the parser refuses
    assert_eq!(parse_datetime("2024-01-02 03:04:05"), None);
}

#[test]
fn written_moments_read_back() {
    let moments = [
        Moment { secs: 0, nanos: 0 },
        Moment { secs: 1_704_164_645, nanos: 1 },
        Moment { secs: 1_704_164_645, nanos: 120_000_000 },
        Moment { secs: -1, nanos: 999_999_999 },
        Moment { secs: MIN_TIMESTAMP, nanos: 0 },
        Moment { secs: MAX_TIMESTAMP, nanos: 999_999_999 },
        Moment { secs: 253_402_300_800, nanos: 5_000 },
    ];
    for m in moments {
        assert_eq!(parse_datetime(&format_datetime(m)), Some(m));
    }
}

#[test]
fn ordering_of_moments() {
    let a = Moment { secs: 10, nanos: 5 };
    let b = Moment { secs: 10, nanos: 6 };
    let c = Moment { secs: 11, nanos: 0 };
    assert!(is_earlier(a, b));
    assert!(is_earlier(b, c));
    assert!(!is_earlier(b, a));
    assert!(!is_earlier(a, a));
}

#[test]
fn cooldown_deadlines() {
    let now = Moment { secs: 1000, nanos: 7 };
    assert_eq!(deadline(now, 300), Some(Moment { secs: 1300, nanos: 7 }));
    assert_eq!(deadline(now, 0), Some(now));
    // `u64::MAX as i64` is -1
    assert_eq!(deadline(now, u64::MAX), Some(Moment { secs: 999, nanos: 7 }));
    // beyond what TimeDelta::seconds accepts
    assert_eq!(deadline(now, 9_223_372_036_854_776), None);
    assert_eq!(deadline(now, 9_223_372_036_854_775), None);
    let near_end = Moment { secs: MAX_TIMESTAMP - 10, nanos: 0 };
    assert_eq!(deadline(near_end, 10), Some(Moment { secs: MAX_TIMESTAMP, nanos: 0 }));
    assert_eq!(deadline(near_end, 11), None);
}

#[test]
fn deadline_matches_chrono_addition() {
    let start = chrono::DateTime::from_timestamp(1_700_000_000, 123).unwrap();
    for c in [0u64, 1, 59, 300, 86_400, 1_000_000_000] {
        let end = start + chrono::Duration::seconds(c as i64);
        let d = deadline(Moment { secs: start.timestamp(), nanos: start.timestamp_subsec_nanos() }, c).unwrap();
        assert_eq!(d.secs, end.timestamp());
        assert_eq!(d.nanos, end.timestamp_subsec_nanos());
        assert_eq!(format_datetime(d), format!("{:?}", end.naive_utc()));
        assert_eq!(parse_datetime(&format_datetime(d)), Some(d));
    }
}

#[test]
fn displayed_moments() {
    assert_eq!(display_datetime(Moment { secs: 0, nanos: 0 }), "1970-01-01 00:00:00");
    assert_eq!(display_datetime(Moment { secs: 1704164645, nanos: 500_000_000 }), "2024-01-02 03:04:05.500");
    let t = chrono::DateTime::from_timestamp(1_700_000_000, 7).unwrap();
    assert_eq!(display_datetime(Moment { secs: 1_700_000_000, nanos: 7 }), t.naive_utc().to_string());
}
