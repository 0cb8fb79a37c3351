use feed_aggregator::time::{millis_from_civil, parse_rfc3339, parse_rfc822, parse_timestamp};

#[test]
fn epoch_is_zero() {
    assert_eq!(parse_rfc3339(b"1970-01-01T00:00:00Z"), Some(0));
    assert_eq!(millis_from_civil(1970, 1, 1, 0, 0, 0, 0), 0);
}

#[test]
fn rfc3339_first_days_of_2024() {
    assert_eq!(parse_rfc3339(b"2024-01-01T00:00:00Z"), Some(1704067200000));
    assert_eq!(parse_rfc3339(b"2024-01-02T00:00:00Z"), Some(1704153600000));
    assert_eq!(parse_rfc3339(b"2024-01-03T00:00:00Z"), Some(1704240000000));
}

#[test]
fn rfc3339_leap_day_and_time_of_day() {
    assert_eq!(parse_rfc3339(b"2000-02-29T12:30:45Z"), Some(951827445000));
    assert_eq!(parse_rfc3339(b"2024-03-01T00:00:00Z"), Some(1709251200000));
    assert_eq!(parse_rfc3339(b"2023-03-01T00:00:00Z"), Some(1677628800000));
    assert_eq!(parse_rfc3339(b"2024-12-31T23:59:59Z"), Some(1735689599000));
}

#[test]
fn rfc3339_before_the_epoch_and_the_ends_of_the_range() {
    assert_eq!(parse_rfc3339(b"1969-12-31T23:59:59Z"), Some(-1000));
    assert_eq!(parse_rfc3339(b"0001-01-01T00:00:00Z"), Some(-62135596800000));
    assert_eq!(parse_rfc3339(b"9999-12-31T23:59:59Z"), Some(253402300799000));
    assert_eq!(parse_rfc3339(b"0000-01-01T00:00:00Z"), None);
}

#[test]
fn rfc3339_offsets() {
    assert_eq!(parse_rfc3339(b"2024-01-02T10:00:00+01:00"), Some(1704186000000));
    assert_eq!(parse_rfc3339(b"2024-01-02T10:00:00-05:00"), Some(1704207600000));
    assert_eq!(parse_rfc3339(b"2024-01-02T10:00:00+00:00"), Some(1704189600000));
    assert_eq!(parse_rfc3339(b"2024-01-02t10:00:00z"), Some(1704189600000));
    assert_eq!(parse_rfc3339(b"2024-01-02 10:00:00Z"), Some(1704189600000));
}

#[test]
fn rfc3339_fractions() {
    assert_eq!(parse_rfc3339(b"2024-01-02T10:00:00.5Z"), Some(1704189600500));
    assert_eq!(parse_rfc3339(b"2024-01-02T10:00:00.25Z"), Some(1704189600250));
    assert_eq!(parse_rfc3339(b"2024-01-02T10:00:00.123Z"), Some(1704189600123));
    assert_eq!(parse_rfc3339(b"2024-01-02T10:00:00.123456789Z"), Some(1704189600123));
    assert_eq!(parse_rfc3339(b"2024-01-02T10:00:00.007+01:00"), Some(1704186000007));
    assert_eq!(parse_rfc3339(b"2024-01-02T10:00:00.Z"), None);
}

#[test]
fn rfc3339_leap_second_runs_into_the_next_minute() {
    assert_eq!(parse_rfc3339(b"2016-12-31T23:59:60Z"), parse_rfc3339(b"2017-01-01T00:00:00Z"));
}

#[test]
fn rfc3339_refuses_what_is_no_timestamp() {
    assert_eq!(parse_rfc3339(b""), None);
    assert_eq!(parse_rfc3339(b"2024-01-02"), None);
    assert_eq!(parse_rfc3339(b"2024-01-02T10:00:00"), None);
    assert_eq!(parse_rfc3339(b"2024-13-02T10:00:00Z"), None);
    assert_eq!(parse_rfc3339(b"2024-00-02T10:00:00Z"), None);
    assert_eq!(parse_rfc3339(b"2024-02-30T10:00:00Z"), None);
    assert_eq!(parse_rfc3339(b"2023-02-29T10:00:00Z"), None);
    assert_eq!(parse_rfc3339(b"1900-02-29T10:00:00Z"), None);
    assert_eq!(parse_rfc3339(b"2024-01-00T10:00:00Z"), None);
    assert_eq!(parse_rfc3339(b"2024-01-02T24:00:00Z"), None);
    assert_eq!(parse_rfc3339(b"2024-01-02T10:60:00Z"), None);
    assert_eq!(parse_rfc3339(b"2024-01-02T10:00:61Z"), None);
    assert_eq!(parse_rfc3339(b"2024/01/02T10:00:00Z"), None);
    assert_eq!(parse_rfc3339(b"2024-01-02T10:00:00Zx"), None);
    assert_eq!(parse_rfc3339(b"2024-01-02T10:00:00+0100"), None);
    assert_eq!(parse_rfc3339(b"2024-01-02T10:00:00+24:00"), None);
    assert_eq!(parse_rfc3339(b"2024-01-02T10:00:00*01:00"), None);
    assert_eq!(parse_rfc3339(b"20x4-01-02T10:00:00Z"), None);
}

#[test]
fn rfc822_first_days_of_2024() {
    assert_eq!(parse_rfc822(b"Mon, 01 Jan 2024 00:00:00 GMT"), Some(1704067200000));
    assert_eq!(parse_rfc822(b"Tue, 02 Jan 2024 00:00:00 GMT"), Some(1704153600000));
    assert_eq!(parse_rfc822(b"Wed, 03 Jan 2024 00:00:00 GMT"), Some(1704240000000));
}

#[test]
fn rfc822_without_weekday_short_day_and_without_seconds() {
    assert_eq!(parse_rfc822(b"02 Jan 2024 10:00:00 GMT"), Some(1704189600000));
    assert_eq!(parse_rfc822(b"2 Jan 2024 10:00:00 GMT"), Some(1704189600000));
    assert_eq!(parse_rfc822(b"Tue, 2 Jan 2024 10:00 GMT"), Some(1704189600000));
    assert_eq!(parse_rfc822(b"tue, 02 JAN 2024 10:00:00 gmt"), Some(1704189600000));
}

#[test]
fn rfc822_zones() {
    assert_eq!(parse_rfc822(b"Tue, 02 Jan 2024 10:00:00 UT"), Some(1704189600000));
    assert_eq!(parse_rfc822(b"Tue, 02 Jan 2024 10:00:00 UTC"), Some(1704189600000));
    assert_eq!(parse_rfc822(b"Tue, 02 Jan 2024 10:00:00 Z"), Some(1704189600000));
    assert_eq!(parse_rfc822(b"Tue, 02 Jan 2024 10:00:00 +0000"), Some(1704189600000));
    assert_eq!(parse_rfc822(b"Tue, 02 Jan 2024 10:00:00 +0100"), Some(1704186000000));
    assert_eq!(parse_rfc822(b"Tue, 02 Jan 2024 10:00:00 -0500"), Some(1704207600000));
    assert_eq!(parse_rfc822(b"Tue, 02 Jan 2024 10:00:00 EST"), Some(1704207600000));
    assert_eq!(parse_rfc822(b"Tue, 02 Jan 2024 10:00:00 EDT"), Some(1704189600000 + 4 * 3600000));
    assert_eq!(parse_rfc822(b"Tue, 02 Jan 2024 10:00:00 CST"), Some(1704189600000 + 6 * 3600000));
    assert_eq!(parse_rfc822(b"Tue, 02 Jan 2024 10:00:00 CDT"), Some(1704189600000 + 5 * 3600000));
    assert_eq!(parse_rfc822(b"Tue, 02 Jan 2024 10:00:00 MST"), Some(1704189600000 + 7 * 3600000));
    assert_eq!(parse_rfc822(b"Tue, 02 Jan 2024 10:00:00 MDT"), Some(1704189600000 + 6 * 3600000));
    assert_eq!(parse_rfc822(b"Tue, 02 Jan 2024 10:00:00 PST"), Some(1704189600000 + 8 * 3600000));
    assert_eq!(parse_rfc822(b"Tue, 02 Jan 2024 10:00:00 PDT"), Some(1704189600000 + 7 * 3600000));
}

#[test]
fn rfc822_every_month() {
    let names = vec!["Jan", "Feb", "Mar", "Apr", "May", "Jun", "Jul", "Aug", "Sep", "Oct", "Nov", "Dec"];
    let mut month: i64 = 1;
    for name in names {
        let text = format!("01 {} 2023 00:00:00 GMT", name);
        assert_eq!(parse_rfc822(text.as_bytes()), Some(millis_from_civil(2023, month, 1, 0, 0, 0, 0)));
        month += 1;
    }
    assert_eq!(millis_from_civil(2023, 12, 1, 0, 0, 0, 0), 1701388800000);
}

#[test]
fn rfc822_refuses_what_is_no_date() {
    assert_eq!(parse_rfc822(b""), None);
    assert_eq!(parse_rfc822(b"yesterday"), None);
    assert_eq!(parse_rfc822(b"Tue, 02 Jan 24 10:00:00 GMT"), None);
    assert_eq!(parse_rfc822(b"Tue, 02 Foo 2024 10:00:00 GMT"), None);
    assert_eq!(parse_rfc822(b"Tue, 32 Jan 2024 10:00:00 GMT"), None);
    assert_eq!(parse_rfc822(b"Tue, 02 Jan 2024 10:00:00"), None);
    assert_eq!(parse_rfc822(b"Tue, 02 Jan 2024 10:00:00 "), None);
    assert_eq!(parse_rfc822(b"Tue, 02 Jan 2024 10:00:00 XYZ"), None);
    assert_eq!(parse_rfc822(b"Tue, 02 Jan 2024 10:00:00 +01:00"), None);
    assert_eq!(parse_rfc822(b"Tue, 02 Jan 2024 25:00:00 GMT"), None);
    assert_eq!(parse_rfc822(b"Tue,02 Jan 2024 10:00:00 GMT"), None);
}

#[test]
fn either_form_is_read() {
    assert_eq!(parse_timestamp(b"2024-01-02T00:00:00Z"), Some(1704153600000));
    assert_eq!(parse_timestamp(b"Tue, 02 Jan 2024 00:00:00 GMT"), Some(1704153600000));
    assert_eq!(parse_timestamp(b"next week"), None);
}
