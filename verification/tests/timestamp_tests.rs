use chrono::Timelike;
use flintec_lpp::{TimeFormat, Timestamp};

#[test]
fn rfc3339_text_is_read_as_instant_and_offset() {
    let t = Timestamp::parse("2021-11-07T01:30:00-08:00", TimeFormat::Rfc3339);
    assert_eq!(t, Some(Timestamp { secs: 1_636_277_400, offset: -28_800 }));
    let u = Timestamp::parse("2021-11-07T01:30:00-07:00", TimeFormat::Rfc3339);
    assert_eq!(u, Some(Timestamp { secs: 1_636_273_800, offset: -25_200 }));
}

#[test]
fn rfc3339_text_with_zulu_offset_is_read() {
    let t = Timestamp::parse("2021-11-07T00:00:00Z", TimeFormat::Rfc3339);
    assert_eq!(t, Some(Timestamp { secs: 1_636_243_200, offset: 0 }));
}

#[test]
fn malformed_rfc3339_text_is_refused() {
    assert_eq!(Timestamp::parse("2021-11-07 01:30", TimeFormat::Rfc3339), None);
    assert_eq!(Timestamp::parse("", TimeFormat::Rfc3339), None);
    assert_eq!(Timestamp::parse("2021-13-07T01:30:00Z", TimeFormat::Rfc3339), None);
    assert_eq!(Timestamp::parse("not a time", TimeFormat::Rfc3339), None);
}

#[test]
fn a_fraction_of_a_second_is_refused() {
    assert_eq!(Timestamp::parse("2021-11-07T01:30:00.5-08:00", TimeFormat::Rfc3339), None);
    assert_eq!(
        Timestamp::parse("2021-11-07T01:30:00.000-08:00", TimeFormat::Rfc3339),
        Some(Timestamp { secs: 1_636_277_400, offset: -28_800 })
    );
}

#[test]
fn a_leap_second_is_refused() {
    assert_eq!(Timestamp::parse("2016-12-31T23:59:60Z", TimeFormat::Rfc3339), None);
}

#[test]
fn rfc3339_text_is_written_on_the_local_clock() {
    let t = Timestamp { secs: 1_636_277_400, offset: -28_800 };
    assert_eq!(t.format(TimeFormat::Rfc3339), Some(String::from("2021-11-07T01:30:00-08:00")));
    let u = Timestamp { secs: 1_636_277_400, offset: 0 };
    assert_eq!(u.format(TimeFormat::Rfc3339), Some(String::from("2021-11-07T09:30:00+00:00")));
    let before_epoch = Timestamp { secs: -1, offset: 0 };
    assert_eq!(
        before_epoch.format(TimeFormat::Rfc3339),
        Some(String::from("1969-12-31T23:59:59+00:00"))
    );
}

#[test]
fn rfc3339_text_reads_back_what_was_written() {
    let t = Timestamp { secs: 1_636_275_720, offset: 3_600 };
    let text = t.format(TimeFormat::Rfc3339).unwrap();
    assert_eq!(Timestamp::parse(&text, TimeFormat::Rfc3339), Some(t));
}

#[test]
fn an_instant_or_offset_out_of_range_has_no_text() {
    let far = Timestamp { secs: i64::MAX, offset: 0 };
    assert_eq!(far.format(TimeFormat::Rfc3339), None);
    assert_eq!(far.format(TimeFormat::Naive), None);
    let skewed = Timestamp { secs: 0, offset: 86_400 };
    assert_eq!(skewed.format(TimeFormat::Rfc3339), None);
    assert_eq!(skewed.format(TimeFormat::Naive), None);
}

#[test]
fn naive_text_is_read_as_utc() {
    let t = Timestamp::parse("2021-11-07 01:30:00", TimeFormat::Naive);
    assert_eq!(t, Some(Timestamp { secs: 1_636_248_600, offset: 0 }));
    assert_eq!(Timestamp::parse("2021-11-07T01:30:00-08:00", TimeFormat::Naive), None);
    assert_eq!(Timestamp::parse("2021-11-07 01:30", TimeFormat::Naive), None);
}

#[test]
fn naive_text_is_written_on_the_local_clock() {
    let t = Timestamp { secs: 1_636_277_400, offset: -28_800 };
    assert_eq!(t.format(TimeFormat::Naive), Some(String::from("2021-11-07 01:30:00")));
    let u = Timestamp { secs: 1_636_248_600, offset: 0 };
    assert_eq!(u.format(TimeFormat::Naive), Some(String::from("2021-11-07 01:30:00")));
}

#[test]
fn time_of_day_is_counted_on_the_local_clock() {
    let t = Timestamp { secs: 1_636_277_400, offset: -28_800 };
    assert_eq!(t.time_of_day(), 5_400);
    let u = Timestamp { secs: 1_636_277_400, offset: 0 };
    assert_eq!(u.time_of_day(), 34_200);
    let midnight = Timestamp { secs: 1_636_243_200, offset: 0 };
    assert_eq!(midnight.time_of_day(), 0);
}

#[test]
fn time_of_day_before_the_epoch_is_counted_from_midnight() {
    let t = Timestamp { secs: -1, offset: 0 };
    assert_eq!(t.time_of_day(), 86_399);
    let u = Timestamp { secs: 0, offset: -3_600 };
    assert_eq!(u.time_of_day(), 82_800);
    let v = Timestamp { secs: -86_400, offset: 0 };
    assert_eq!(v.time_of_day(), 0);
}

#[test]
fn the_first_and_the_last_instant_that_chrono_holds_are_written() {
    let last = chrono::DateTime::<chrono::Utc>::MAX_UTC.timestamp();
    let first = chrono::DateTime::<chrono::Utc>::MIN_UTC.timestamp();
    for offset in [-86_399, 0, 86_399] {
        for secs in [first, last] {
            let t = Timestamp { secs, offset };
            assert!(t.format(TimeFormat::Rfc3339).is_some());
            assert!(t.format(TimeFormat::Naive).is_some());
        }
    }
    assert_eq!(Timestamp { secs: last + 1, offset: 0 }.format(TimeFormat::Rfc3339), None);
    assert_eq!(Timestamp { secs: first - 1, offset: 0 }.format(TimeFormat::Naive), None);
    assert_eq!(Timestamp { secs: 0, offset: -86_400 }.format(TimeFormat::Rfc3339), None);
    assert_eq!(Timestamp { secs: 0, offset: i32::MIN }.format(TimeFormat::Naive), None);
}

#[test]
fn time_of_day_agrees_with_chrono() {
    for secs in [0i64, 1, -1, 86_399, 86_400, -86_400, -86_401, 1_636_277_400, -1_636_277_400] {
        for offset in [0i32, 1, -1, 3_600, -3_600, 28_800, -28_800, 86_399, -86_399] {
            let east = chrono::FixedOffset::east_opt(offset).unwrap();
            let dt = chrono::DateTime::from_timestamp(secs, 0).unwrap().with_timezone(&east);
            let t = Timestamp { secs, offset };
            assert_eq!(t.time_of_day(), dt.time().num_seconds_from_midnight());
        }
    }
}
