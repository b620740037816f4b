use punch_clock::error::Main;
use punch_clock::record::Record;
use punch_clock::time_range::{Info, Line};

fn naive(y: i32, mo: u32, d: u32, h: u32, mi: u32) -> i64 {
    chrono::NaiveDate::from_ymd_opt(y, mo, d)
        .unwrap()
        .and_hms_opt(h, mi, 0)
        .unwrap()
        .and_utc()
        .timestamp_nanos_opt()
        .unwrap()
}

fn dt(y: i32, mo: u32, d: u32) -> i64 {
    naive(y, mo, d, 0, 0)
}

fn s(text: &str) -> String {
    text.to_string()
}

#[test]
fn time_range() {
    let record_file = "2023-01-02T00:00:00.000000+00:00
2023-01-03T00:00:00.000000+00:00 Today was a good day.";
    let record = Record::parse(record_file).unwrap();
    let tr = punch_clock::time_range::time_range(
        &record,
        dt(2024, 1, 1),
        dt(2023, 1, 1),
        dt(2023, 1, 4),
        6,
        0,
    )
    .unwrap();
    assert!(tr.print(4, "%F").is_ok());
    let expected = vec![
        Line { date: naive(2023, 1, 1, 0, 0), info: Info::Empty },
        Line { date: naive(2023, 1, 1, 12, 0), info: Info::Empty },
        Line { date: naive(2023, 1, 2, 0, 0), info: Info::SessionStart(naive(2023, 1, 2, 0, 0), None) },
        Line {
            date: naive(2023, 1, 2, 12, 0),
            info: Info::SessionEnd(naive(2023, 1, 3, 0, 0), Some(s("Today was a good day."))),
        },
        Line { date: naive(2023, 1, 3, 0, 0), info: Info::Empty },
        Line { date: naive(2023, 1, 3, 12, 0), info: Info::Empty },
    ];
    assert_eq!(&expected, tr.lines());
}

#[test]
fn time_range_day() {
    let record_file = "2023-11-02T09:30:25.426260+00:00
2023-11-02T11:24:42.221260+00:00

2023-11-02T13:10:22.138841+00:00
2023-11-02T14:34:36.184841+00:00

2023-11-02T14:55:00.061850+00:00
2023-11-02T15:53:38.141850+00:00

2023-11-02T20:47:22.213984+00:00
2023-11-02T22:51:02.408984+00:00
";
    let record = Record::parse(record_file).unwrap();
    let tr = punch_clock::time_range::time_range(
        &record,
        dt(2024, 1, 1),
        dt(2023, 11, 2),
        dt(2023, 11, 3),
        24,
        0,
    )
    .unwrap();
    let even = "▒░▒░▒░";
    let odd = "░▒░▒░▒";
    let full = "▓▓▓▓▓▓";
    let mut expected: Vec<String> = Vec::new();
    for h in 0..24 {
        let background = if h % 2 == 0 { even } else { odd };
        let line = match h {
            9 => format!("09:00 {full} In @ 09:30"),
            10 => format!("10:00 {full}"),
            11 => format!("11:00 {full} Out @ 11:24"),
            13 => format!("13:00 {full} In @ 13:10"),
            14 => format!("14:00 {full} [2 transitions overlapping]"),
            15 => format!("15:00 {full} Out @ 15:53"),
            20 => format!("20:00 {full} In @ 20:47"),
            21 => format!("21:00 {full}"),
            22 => format!("22:00 {full} Out @ 22:51"),
            _ => format!("{h:02}:00 {background}"),
        };
        expected.push(line);
    }
    assert_eq!(expected.join("\n"), tr.print(6, "%R").unwrap());
}

#[test]
fn time_range_overlapping_comments() {
    let record_file = "2023-01-01T12:01:00.000000+00:00
2023-01-01T12:02:00.000000+00:00 Good session.

2023-01-01T12:04:00.000000+00:00
2023-01-01T12:05:00.000000+00:00 Even better session!

2023-01-02T12:01:00.000000+00:00
2023-01-02T12:02:00.000000+00:00 Beeble weeble dee 1.

2023-01-02T12:03:00.000000+00:00
2023-01-02T12:04:00.000000+00:00 Beeble weeble dee 2.

2023-01-02T12:05:00.000000+00:00
2023-01-02T12:06:00.000000+00:00 Beeble weeble dee 3.
";
    let record = Record::parse(record_file).unwrap();
    let tr = punch_clock::time_range::time_range(
        &record,
        dt(2024, 1, 1),
        dt(2023, 1, 1),
        dt(2023, 1, 4),
        6,
        0,
    )
    .unwrap();
    let text = tr.print(6, "%x %X").unwrap();
    assert!(text.lines().nth(1).unwrap().ends_with(" [2 transitions overlapping]"));
    assert!(text.lines().nth(3).unwrap().ends_with(" [3 transitions overlapping]"));
    let expected = vec![
        Line { date: naive(2023, 1, 1, 0, 0), info: Info::Empty },
        Line { date: naive(2023, 1, 1, 12, 0), info: Info::Multi(2) },
        Line { date: naive(2023, 1, 2, 0, 0), info: Info::Empty },
        Line { date: naive(2023, 1, 2, 12, 0), info: Info::Multi(3) },
        Line { date: naive(2023, 1, 3, 0, 0), info: Info::Empty },
        Line { date: naive(2023, 1, 3, 12, 0), info: Info::Empty },
    ];
    assert_eq!(&expected, tr.lines());
}

#[test]
fn time_range_two_comments_in_one_slot() {
    let record_file = "2023-01-01T06:00:00+00:00 Morning.
2023-01-01T13:00:00+00:00 Lunch.

2023-01-01T14:00:00+00:00 Afternoon.
2023-01-02T01:00:00+00:00 Late.
";
    let record = Record::parse(record_file).unwrap();
    let tr = punch_clock::time_range::time_range(
        &record,
        dt(2024, 1, 1),
        dt(2023, 1, 1),
        dt(2023, 1, 4),
        6,
        0,
    )
    .unwrap();
    assert_eq!(Info::Multi(2), tr.lines()[1].info);
    let text = tr.print(2, "%F %R").unwrap();
    let lines: Vec<&str> = text.lines().collect();
    assert_eq!("2023-01-01 00:00 ▓▓ In @ 2023-01-01 06:00 \"Morning.\"", lines[0]);
    assert_eq!("2023-01-01 12:00 ▓▓ [2 transitions overlapping]", lines[1]);
    assert_eq!("2023-01-02 00:00 ▓▓ Out @ 2023-01-02 01:00 \"Late.\"", lines[2]);
    assert_eq!("2023-01-02 12:00 ░▒", lines[3]);
}

#[test]
fn time_range_whole_session_in_one_slot() {
    let record_file = "2023-01-01T01:00:00+00:00 Start.
2023-01-01T02:00:00+00:00
";
    let record = Record::parse(record_file).unwrap();
    let tr = punch_clock::time_range::time_range(
        &record,
        dt(2024, 1, 1),
        dt(2023, 1, 1),
        dt(2023, 1, 2),
        2,
        3600,
    )
    .unwrap();
    assert_eq!(
        Info::SessionWhole(naive(2023, 1, 1, 1, 0), naive(2023, 1, 1, 2, 0), Some(s("Start.")), None),
        tr.lines()[0].info
    );
    let text = tr.print(1, "%R").unwrap();
    assert_eq!("01:00 ▓ *02:00 -> 03:00 *\"Start.\"\n13:00 ░", text);
}

#[test]
fn time_range_open_session() {
    let record_file = "2023-01-01T05:00:00+00:00 Working.
";
    let record = Record::parse(record_file).unwrap();
    let tr = punch_clock::time_range::time_range(
        &record,
        naive(2023, 1, 1, 13, 0),
        dt(2023, 1, 1),
        dt(2023, 1, 2),
        4,
        0,
    )
    .unwrap();
    assert_eq!(Info::SessionStart(naive(2023, 1, 1, 5, 0), Some(s("Working."))), tr.lines()[0].info);
    assert_eq!(Info::SessionSpan, tr.lines()[1].info);
    assert_eq!(Info::SessionSpan, tr.lines()[2].info);
    assert_eq!(Info::Empty, tr.lines()[3].info);
}

#[test]
fn time_range_session_overlap_fails() {
    let record_file = "2023-01-01T05:00:00+00:00
2023-01-01T05:30:00+00:00

2023-01-01T05:45:00+00:00
";
    let record = Record::parse(record_file).unwrap();
    let result = punch_clock::time_range::time_range(
        &record,
        naive(2023, 1, 1, 7, 0),
        dt(2023, 1, 1),
        dt(2023, 1, 2),
        24,
        0,
    );
    assert_eq!(Main::SessionOverlap, result.unwrap_err());
}

#[test]
fn time_range_bad_format_fails() {
    let record = Record::parse("2023-01-01T05:00:00+00:00\n2023-01-01T06:00:00+00:00\n").unwrap();
    let tr = punch_clock::time_range::time_range(
        &record,
        dt(2024, 1, 1),
        dt(2023, 1, 1),
        dt(2023, 1, 2),
        2,
        0,
    )
    .unwrap();
    assert_eq!(Main::Format, tr.print(2, "%!").unwrap_err());
}
