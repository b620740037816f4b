use punch_clock::range::DateTimeRange;
use punch_clock::record::Record;

fn datetime(hour: u32, min: u32) -> i64 {
    chrono::NaiveDate::from_ymd_opt(2023, 7, 15)
        .unwrap()
        .and_hms_opt(hour, min, 0)
        .unwrap()
        .and_utc()
        .timestamp_nanos_opt()
        .unwrap()
}

fn record_of(entries: &[(u32, u32, u32, u32)]) -> Record {
    let mut record = Record::new();
    for &(h1, m1, h2, m2) in entries {
        record.clock_in(datetime(h1, m1), None).unwrap();
        record.clock_out(datetime(h2, m2), None).unwrap();
    }
    record
}

fn line_from_record(record: Record, width: usize) -> String {
    let today_start = datetime(0, 0);
    let today_end = today_start + 86_400_000_000_000 - 1_000_000;
    let datetime_ranges = record
        .try_into_cropped_datetime_ranges(today_start, today_end, today_end)
        .unwrap();
    let window = DateTimeRange::new(today_start, today_end).unwrap();
    punch_clock::display::paint_datetime_ranges_line(&datetime_ranges, &window, width, false)
}

#[test]
fn paint_datetime_ranges_line() {
    let line = line_from_record(record_of(&[(0, 0, 12, 0)]), 10);
    assert_eq!("▓▓▓▓▓░▒░▒░", line);
}

#[test]
fn paint_datetime_ranges_line_middle() {
    let line = line_from_record(record_of(&[(6, 0, 18, 0)]), 10);
    assert_eq!("▒░▒▓▓▓▓▓▒░", line);
}

#[test]
fn paint_datetime_ranges_line_end() {
    let line = line_from_record(record_of(&[(12, 0, 23, 59)]), 10);
    assert_eq!("▒░▒░▒▓▓▓▓▓", line);
}

#[test]
fn paint_datetime_ranges_line_long() {
    let line = line_from_record(
        record_of(&[
            (0, 0, 1, 0),
            (2, 0, 3, 0),
            (5, 0, 7, 0),
            (10, 0, 16, 30),
            (19, 0, 19, 10),
            (23, 0, 23, 59),
        ]),
        24,
    );
    assert_eq!("▓░▓░▒▓▓░▒░▓▓▓▓▓▓▓░▒░▒░▒▓", line);
}

#[test]
fn paint_full() {
    let line = punch_clock::display::paint_datetime_ranges_line(
        &vec![DateTimeRange::new(datetime(0, 0), datetime(23, 59)).unwrap()],
        &DateTimeRange::new(datetime(0, 0), datetime(23, 59)).unwrap(),
        24,
        false,
    );
    assert_eq!("▓▓▓▓▓▓▓▓▓▓▓▓▓▓▓▓▓▓▓▓▓▓▓▓", line);
}

#[test]
fn paint_both_ends() {
    let line = punch_clock::display::paint_datetime_ranges_line(
        &vec![
            DateTimeRange::new(datetime(0, 0), datetime(6, 0)).unwrap(),
            DateTimeRange::new(datetime(18, 0), datetime(23, 59)).unwrap(),
        ],
        &DateTimeRange::new(datetime(0, 0), datetime(23, 59)).unwrap(),
        24,
        false,
    );
    assert_eq!("▓▓▓▓▓▓▒░▒░▒░▒░▒░▒░▓▓▓▓▓▓", line);
}

#[test]
fn paint_shifted_background() {
    let line = line_from_record(Record::new(), 6);
    assert_eq!("▒░▒░▒░", line);
    let window = DateTimeRange::new(datetime(0, 0), datetime(23, 59)).unwrap();
    let shifted = punch_clock::display::paint_datetime_ranges_line(&vec![], &window, 6, true);
    assert_eq!("░▒░▒░▒", shifted);
}

#[test]
fn calendar_lines() {
    let record = record_of(&[(6, 0, 18, 0)]);
    let day = chrono::NaiveDate::from_ymd_opt(2023, 7, 15)
        .unwrap()
        .signed_duration_since(chrono::NaiveDate::from_ymd_opt(1970, 1, 1).unwrap())
        .num_days();
    let lines =
        punch_clock::display::paint_day_range(&record, day - 1, day, 10, datetime(23, 0), 0)
            .unwrap();
    assert_eq!(
        vec![
            "Total time: 12 hours, 0 minutes".to_string(),
            "2023-07-14 ▒░▒░▒░▒░▒░ ".to_string(),
            "2023-07-15 ░▒░▓▓▓▓▓░▒ 12 hours, 0 minutes".to_string(),
        ],
        lines
    );
}
