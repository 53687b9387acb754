use wordpress_archive::clock::{parse_date, parse_rfc3339, Timestamp};

fn at(text: &str) -> Timestamp {
    parse_rfc3339(text).expect("a timestamp")
}

#[test]
fn dates_without_a_zone_are_utc() {
    assert_eq!(
        parse_date("2020-11-28T08:15:00"),
        Some(at("2020-11-28T08:15:00Z"))
    );
    assert_eq!(
        parse_date("2020-11-28T08:15:00+02:00"),
        Some(at("2020-11-28T06:15:00Z"))
    );
    assert_eq!(parse_date("2020-11-28"), None);
}

#[test]
fn notations_differ_in_precision_and_offset() {
    let time = at("2026-08-20T01:02:03.5Z");
    assert_eq!(time.rendered(), "2026-08-20T01:02:03Z");
    assert_eq!(time.rendered_in_full(), "2026-08-20T01:02:03.500+00:00");
    assert_eq!(time.to_string(), "2026-08-20 01:02:03.500 UTC");
    assert_eq!(time.day().rendered(), "2026-08-20");
}

#[test]
fn days_begin_at_midnight_before_and_after_the_epoch() {
    assert_eq!(at("1969-12-31T23:59:59Z").day().rendered(), "1969-12-31");
    assert_eq!(at("1970-01-01T00:00:00Z").day().rendered(), "1970-01-01");
    assert!(at("1969-12-31T23:59:59Z")
        .day()
        .precedes(&Timestamp::epoch().day()));
}

#[test]
fn times_out_of_range_are_refused() {
    assert!(Timestamp::new(8_210_266_876_799, 999_999_999).is_some());
    assert!(Timestamp::new(8_210_266_876_800, 0).is_none());
    assert!(Timestamp::new(-8_334_601_228_800, 0).is_some());
    assert!(Timestamp::new(-8_334_601_228_801, 0).is_none());
    assert!(Timestamp::new(59, 1_500_000_000).is_some());
    assert!(Timestamp::new(58, 1_500_000_000).is_none());
    assert!(Timestamp::new(0, 2_000_000_000).is_none());
}

#[test]
fn spans_are_subtracted_to_the_nanosecond() {
    let time = at("2026-08-20T00:00:00.25Z");
    assert_eq!(
        time.earlier(1, 500_000_000),
        Some(at("2026-08-19T23:59:58.75Z"))
    );
    assert_eq!(time.earlier(0, 0), Some(time));
    assert_eq!(time.earlier(9_223_372_036_854_775, 0), None);
    assert!(at("2026-08-19T00:00:00Z").precedes(&time));
    assert!(time.equals(&time));
}
