use punch_clock::cli::DayResolution;
use punch_clock::error::Main;
use punch_clock::record::{Entry, Latest, Record};
use punch_clock::string::assert_no_newlines;
use punch_clock::time::{human_readable_duration, Ago};

const HOUR: i128 = 3_600_000_000_000;

fn instant(text: &str) -> i64 {
    chrono::DateTime::parse_from_rfc3339(text).unwrap().timestamp_nanos_opt().unwrap()
}

fn day_number(y: i32, mo: u32, d: u32) -> i64 {
    let epoch = chrono::NaiveDate::from_ymd_opt(1970, 1, 1).unwrap();
    chrono::NaiveDate::from_ymd_opt(y, mo, d).unwrap().signed_duration_since(epoch).num_days()
}

#[test]
fn undo_removes_open_session() {
    let mut record = Record::parse("2023-01-01T04:00:00+00:00\n").unwrap();
    let popped = record.pop();
    assert_eq!(Some((instant("2023-01-01T04:00:00+00:00"), None)), popped);
    assert_eq!("", record.serialize());
    assert!(record.into_items().is_empty());
}

#[test]
fn undo_reopens_last_entry() {
    let mut record =
        Record::parse("2023-01-01T04:00:00+00:00 In.\n2023-01-01T05:00:00+00:00 Out.\n").unwrap();
    let popped = record.pop();
    assert_eq!(Some((instant("2023-01-01T05:00:00+00:00"), Some("Out.".to_string()))), popped);
    assert_eq!(Some(instant("2023-01-01T04:00:00+00:00")), record.clone_last_datetime());
    assert_eq!("2023-01-01T04:00:00+00:00        In.\n", record.serialize());
    assert_eq!(None, Record::new().pop());
}

#[test]
fn entry_construction() {
    let t = instant("2023-01-01T04:00:00+00:00");
    assert_eq!(Main::CheckOutBeforeCheckIn, Entry::try_new(t, t - 1, None, None).unwrap_err());
    let zero = Entry::try_new(t, t, None, None).unwrap();
    assert_eq!(0, zero.get_work_duration());
    assert_eq!(t, zero.get_check_out());
}

#[test]
fn crop_needs_a_window() {
    let record = Record::parse("2023-01-01T04:00:00+00:00\n2023-01-01T05:00:00+00:00\n").unwrap();
    let t = instant("2023-01-01T04:00:00+00:00");
    assert_eq!(
        Main::RangeStartPosition,
        record.try_into_cropped_datetime_ranges(t, t, t).unwrap_err()
    );
    assert_eq!(
        Main::RangeStartPosition,
        record.try_into_cropped_datetime_ranges(t + 1, t, t).unwrap_err()
    );
}

#[test]
fn crop_clips_and_is_idempotent() {
    let record = Record::parse(
        "2023-01-01T04:00:00+00:00\n2023-01-01T06:00:00+00:00\n\n2023-01-01T07:00:00+00:00\n2023-01-01T09:00:00+00:00\n\n2023-01-01T10:00:00+00:00\n",
    )
    .unwrap();
    let start = instant("2023-01-01T05:00:00+00:00");
    let end = instant("2023-01-01T11:00:00+00:00");
    let now = instant("2023-01-01T12:00:00+00:00");
    let ranges = record.try_into_cropped_datetime_ranges(start, end, now).unwrap();
    let bounds: Vec<(i64, i64)> = ranges.iter().map(|r| (r.start(), r.end())).collect();
    assert_eq!(
        vec![
            (start, instant("2023-01-01T06:00:00+00:00")),
            (instant("2023-01-01T07:00:00+00:00"), instant("2023-01-01T09:00:00+00:00")),
            (instant("2023-01-01T10:00:00+00:00"), end),
        ],
        bounds
    );
    let mut again = Record::new();
    for (a, b) in &bounds {
        again.clock_in(*a, None).unwrap();
        again.clock_out(*b, None).unwrap();
    }
    let twice = again.try_into_cropped_datetime_ranges(start, end, now).unwrap();
    let bounds_twice: Vec<(i64, i64)> = twice.iter().map(|r| (r.start(), r.end())).collect();
    assert_eq!(bounds, bounds_twice);
}

#[test]
fn item_spanning_the_window_is_left_out() {
    let record = Record::parse("2023-01-01T04:00:00+00:00\n2023-01-01T20:00:00+00:00\n").unwrap();
    let ranges = record
        .try_into_cropped_datetime_ranges(
            instant("2023-01-01T05:00:00+00:00"),
            instant("2023-01-01T06:00:00+00:00"),
            instant("2023-01-02T00:00:00+00:00"),
        )
        .unwrap();
    assert!(ranges.is_empty());
}

#[test]
fn total_is_sum_of_days() {
    let record = Record::parse(
        "2023-01-01T04:00:00+00:00\n2023-01-01T06:00:00+00:00\n\n2023-01-02T07:00:00+00:00\n2023-01-02T09:30:00+00:00\n\n2023-01-03T10:00:00+00:00\n",
    )
    .unwrap();
    let now = instant("2023-01-03T11:15:00+00:00");
    let total = record.total_time(now).unwrap();
    let mut sum = 0;
    for day in [day_number(2023, 1, 1), day_number(2023, 1, 2), day_number(2023, 1, 3)] {
        sum += record.days_time(day, now, 0).unwrap();
    }
    assert_eq!(total, sum);
    assert_eq!(2 * HOUR + 5 * HOUR / 2 + 5 * HOUR / 4, total);
}

#[test]
fn days_time_of_one_day() {
    let record = Record::parse("2023-01-01T23:00:00+00:00\n2023-01-02T01:00:00+00:00\n").unwrap();
    let now = instant("2023-01-03T00:00:00+00:00");
    assert_eq!(Ok(HOUR), record.days_time(day_number(2023, 1, 2), now, 0));
    assert_eq!(Ok(HOUR - 1), record.days_time(day_number(2023, 1, 1), now, 0));
    assert_eq!(Ok(0), record.days_time(day_number(2023, 1, 1), now, 2 * 3600));
    assert_eq!(Ok(2 * HOUR), record.days_time(day_number(2023, 1, 2), now, 2 * 3600));
    assert_eq!(Err(Main::DateOutOfRange), record.days_time(1_000_000, now, 0));
}

#[test]
fn todays_time_clips_to_midnight() {
    let record = Record::parse(
        "2023-01-01T10:00:00+00:00\n2023-01-01T11:00:00+00:00\n\n2023-01-01T22:00:00+00:00\n2023-01-02T01:00:00+00:00\n\n2023-01-02T03:00:00+00:00\n",
    )
    .unwrap();
    let now = instant("2023-01-02T04:30:00+00:00");
    assert_eq!(Ok(HOUR + 3 * HOUR / 2), record.todays_time(now, 0));
    assert_eq!(Ok(4 * HOUR + 3 * HOUR / 2), record.total_time(now));
    assert_eq!(Some(3 * HOUR / 2), record.current_session_time(now));
    let early = instant("2023-01-02T02:00:00+00:00");
    assert_eq!(Err(Main::CheckOutBeforeCheckIn), record.total_time(early));
    assert_eq!(Err(Main::CheckOutBeforeCheckIn), record.todays_time(early, 0));
}

#[test]
fn clock_in_and_out() {
    let mut record = Record::new();
    let t1 = instant("2023-01-01T09:00:00+00:00");
    let t2 = instant("2023-01-01T10:30:00+00:00");
    assert_eq!(Err(Main::NotClockedIn), record.clock_out(t2, None));
    assert_eq!(Ok(t1), record.clock_in(t1, Some("Start".to_string())));
    assert_eq!(Err(Main::AlreadyClockedIn), record.clock_in(t2, None));
    assert_eq!(Err(Main::CheckOutBeforeCheckIn), record.clock_out(t1 - 1, None));
    assert_eq!(Ok((t2, 3 * HOUR / 2)), record.clock_out(t2, Some("Done".to_string())));
    assert_eq!(None, record.current_session_time(t2));
    match record.get_latest() {
        Latest::Entry(entry) => {
            assert_eq!(t1, entry.check_in());
            assert_eq!(&Some("Start".to_string()), entry.in_comment());
            assert_eq!(&Some("Done".to_string()), entry.out_comment());
        }
        _ => panic!("the latest element is the entry"),
    }
    assert_eq!(
        "2023-01-01T09:00:00+00:00        Start\n2023-01-01T10:30:00+00:00        Done\n\n",
        record.serialize()
    );
}

#[test]
fn round_trip_keeps_instants_and_comments() {
    let mut record = Record::new();
    record.clock_in(instant("2023-03-04T05:06:07.123456789+02:00"), Some("a b c".to_string())).unwrap();
    record.clock_out(instant("2023-03-04T08:00:00.5Z"), Some("x y".to_string())).unwrap();
    record.clock_in(instant("2023-03-04T09:00:00Z"), Some("open".to_string())).unwrap();
    let text = record.serialize();
    let again = Record::parse(&text).unwrap();
    assert_eq!(text, again.serialize());
    let items = again.into_items();
    assert_eq!(2, items.len());
    let first = Record::parse(&text).unwrap();
    match first.get_latest() {
        Latest::Current(session) => {
            assert_eq!(instant("2023-03-04T09:00:00Z"), session.check_in);
            assert_eq!(Some("open".to_string()), session.in_comment);
        }
        _ => panic!("the latest element is the open session"),
    }
    let entry = &first.get_entries()[0];
    assert_eq!(instant("2023-03-04T05:06:07.123456789+02:00"), entry.check_in());
    assert_eq!(instant("2023-03-04T08:00:00.5Z"), entry.get_check_out());
    assert_eq!(&Some("a b c".to_string()), entry.in_comment());
    let mut spaced = Record::new();
    spaced.clock_in(0, Some("a b  c".to_string())).unwrap();
    let reread = Record::parse(&spaced.serialize()).unwrap();
    match reread.get_latest() {
        Latest::Current(session) => assert_eq!(Some("a b c".to_string()), session.in_comment),
        _ => panic!("the latest element is the open session"),
    }
}

#[test]
fn parse_errors() {
    assert_eq!(Main::InvalidTimestamp, Record::parse("garbage\n").unwrap_err());
    assert_eq!(
        Main::InvalidTimestamp,
        Record::parse("2023-01-01T04:00:00+00:00\nyesterday\n").unwrap_err()
    );
    assert_eq!(
        Main::EntryIncorrectNumberOfLines,
        Record::parse(
            "2023-01-01T04:00:00+00:00\n2023-01-01T05:00:00+00:00\n2023-01-01T06:00:00+00:00\n"
        )
        .unwrap_err()
    );
    assert_eq!(
        Main::EntryIncorrectNumberOfLines,
        Record::parse("2023-01-01T04:00:00+00:00\n\n2023-01-01T05:00:00+00:00\n").unwrap_err()
    );
    assert_eq!(
        Main::CheckOutBeforeCheckIn,
        Record::parse("2023-01-01T05:00:00+00:00\n2023-01-01T04:00:00+00:00\n").unwrap_err()
    );
    let empty = Record::parse("  \n\n \n").unwrap();
    assert!(empty.into_items().is_empty());
}

#[test]
fn split_tokens() {
    assert_eq!(
        vec!["a".to_string(), "b c".to_string()],
        punch_clock::text::split_sparse_tokens_str(" a \n\n\n\n b c \n\n", "\n\n")
    );
    assert_eq!(
        vec!["x".to_string(), "y".to_string()],
        punch_clock::text::split_sparse_tokens("  x   y ", ' ')
    );
}

#[test]
fn split_tokens_with_empty_pattern() {
    assert_eq!(
        vec!["a".to_string(), "b".to_string(), "c".to_string()],
        punch_clock::text::split_sparse_tokens_str("a b\tc", "")
    );
    assert!(punch_clock::text::split_sparse_tokens_str("", "").is_empty());
}

#[test]
fn record_clone_is_equal() {
    let record =
        Record::parse("2023-01-01T04:00:00+00:00 In.\n2023-01-01T05:00:00+00:00\n\n2023-01-01T06:00:00+00:00 On.\n").unwrap();
    let copy = record.clone();
    assert_eq!(record.serialize(), copy.serialize());
    assert_eq!(record.into_items(), copy.into_items());
}

#[test]
fn day_view_totals_and_slots() {
    let record = Record::parse("2023-01-01T06:00:00+00:00\n2023-01-01T07:30:00+00:00\n").unwrap();
    let now = instant("2023-01-02T00:00:00+00:00");
    let (total, tr) = punch_clock::time_range::day_view(
        &record,
        day_number(2023, 1, 1),
        now,
        0,
        DayResolution::Hour,
    )
    .unwrap();
    assert_eq!(3 * HOUR / 2, total);
    assert_eq!(24, tr.lines().len());
    assert_eq!(
        punch_clock::time_range::Info::SessionStart(instant("2023-01-01T06:00:00+00:00"), None),
        tr.lines()[6].info
    );
    assert_eq!(
        punch_clock::time_range::Info::SessionEnd(instant("2023-01-01T07:30:00+00:00"), None),
        tr.lines()[7].info
    );
    assert_eq!("Total time: 1 hours, 30 minutes", punch_clock::display::total_time_text(total));
    assert_eq!(
        Err(Main::DateOutOfRange),
        punch_clock::time_range::day_view(&record, 1_000_000, now, 0, DayResolution::Hour).map(|v| v.0)
    );
}

#[test]
fn comment_newlines() {
    assert_eq!(Ok("fine".to_string()), assert_no_newlines("fine".to_string()));
    assert_eq!(Err(Main::CommentWithNewlines), assert_no_newlines("not\nfine".to_string()));
}

#[test]
fn duration_text() {
    assert_eq!("0 minutes", human_readable_duration(59_000_000_000));
    assert_eq!("1 hours, 1 minutes", human_readable_duration(HOUR + 60_000_000_000));
    assert_eq!("2 days, 3 hours, 4 minutes", human_readable_duration(51 * HOUR + 4 * 60_000_000_000));
    assert_eq!("5 minutes ago", Ago(-5 * 60_000_000_000).text());
    assert_eq!("2 hours, 0 minutes from now", Ago(2 * HOUR).text());
}

#[test]
fn resolutions() {
    assert_eq!(1, DayResolution::Hour.as_hour_fraction());
    assert_eq!(6, DayResolution::TenMinutes.as_hour_fraction());
    assert_eq!(60, DayResolution::Minute.as_hour_fraction());
}

#[test]
fn paint_half_day_from_ledger() {
    let record = Record::parse("2023-01-01T00:00:00+00:00\n2023-01-01T12:00:00+00:00\n").unwrap();
    let day = day_number(2023, 1, 1);
    let window = punch_clock::range::day_timespan(day, 0).unwrap();
    let ranges = record
        .try_into_cropped_datetime_ranges(window.start(), window.end(), window.end())
        .unwrap();
    assert_eq!(
        "▓▓▓▓▓░▒░▒░",
        punch_clock::display::paint_datetime_ranges_line(&ranges, &window, 10, false)
    );
    let one_line = Record::parse("2023-01-01T00:00:00+00:00 2023-01-01T12:00:00+00:00").unwrap();
    let noon = instant("2023-01-01T12:00:00+00:00");
    let ranges = one_line.try_into_cropped_datetime_ranges(window.start(), window.end(), noon).unwrap();
    assert_eq!(
        "▓▓▓▓▓░▒░▒░",
        punch_clock::display::paint_datetime_ranges_line(&ranges, &window, 10, false)
    );
}
