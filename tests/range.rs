use punch_clock::error::Main;
use punch_clock::range::{day_timespan, total_span, DateTimeRange};

fn instant(text: &str) -> i64 {
    chrono::DateTime::parse_from_rfc3339(text).unwrap().timestamp_nanos_opt().unwrap()
}

fn day_number(y: i32, mo: u32, d: u32) -> i64 {
    let epoch = chrono::NaiveDate::from_ymd_opt(1970, 1, 1).unwrap();
    chrono::NaiveDate::from_ymd_opt(y, mo, d).unwrap().signed_duration_since(epoch).num_days()
}

#[test]
fn days_covered() {
    let start = instant("2020-01-01T00:00:00.000Z");
    let end = instant("2020-01-04T00:00:00.000Z");
    let range = DateTimeRange::new(start, end).unwrap();
    let dc = range.days_covered(0);
    assert_eq!(
        vec![
            day_number(2020, 1, 1),
            day_number(2020, 1, 2),
            day_number(2020, 1, 3),
            day_number(2020, 1, 4),
        ],
        dc
    );
}

#[test]
fn days_covered_at_an_offset() {
    let start = instant("2020-01-01T20:00:00Z");
    let end = instant("2020-01-02T02:00:00Z");
    let range = DateTimeRange::new(start, end).unwrap();
    assert_eq!(vec![day_number(2020, 1, 1), day_number(2020, 1, 2)], range.days_covered(0));
    assert_eq!(vec![day_number(2020, 1, 2)], range.days_covered(5 * 3600));
    assert_eq!(vec![day_number(2020, 1, 1)], range.days_covered(-3 * 3600));
}

#[test]
fn range_needs_start_before_end() {
    assert_eq!(Main::RangeStartPosition, DateTimeRange::new(5, 5).unwrap_err());
    assert_eq!(Main::RangeStartPosition, DateTimeRange::new(6, 5).unwrap_err());
    let range = DateTimeRange::new(5, 8).unwrap();
    assert_eq!(3, range.span());
    assert_eq!((5, 8), range.into_bounds());
}

#[test]
fn spans_sum_up() {
    let ranges = vec![DateTimeRange::new(0, 10).unwrap(), DateTimeRange::new(20, 25).unwrap()];
    assert_eq!(Ok(15), total_span(&ranges));
    assert_eq!(Ok(0), total_span(&vec![]));
}

#[test]
fn day_timespan_of_a_day() {
    let day = day_number(2023, 1, 1);
    let span = day_timespan(day, 3600).unwrap();
    assert_eq!(instant("2023-01-01T00:00:00+01:00"), span.start());
    assert_eq!(instant("2023-01-02T00:00:00+01:00") - 1, span.end());
    assert_eq!(Main::DateOutOfRange, day_timespan(1_000_000, 0).unwrap_err());
}
