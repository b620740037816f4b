use punch_clock::display::paint_day_range;
use punch_clock::record::{Entry, Item, Record};

fn nanos(y: i32, mo: u32, d: u32, h: u32, mi: u32) -> i64 {
    chrono::NaiveDate::from_ymd_opt(y, mo, d)
        .unwrap()
        .and_hms_opt(h, mi, 0)
        .unwrap()
        .and_utc()
        .timestamp_nanos_opt()
        .unwrap()
}

fn datetime_hm(hour: u32, min: u32) -> i64 {
    nanos(2023, 1, 1, hour, min)
}

fn day_number(y: i32, mo: u32, d: u32) -> i64 {
    let epoch = chrono::NaiveDate::from_ymd_opt(1970, 1, 1).unwrap();
    chrono::NaiveDate::from_ymd_opt(y, mo, d)
        .unwrap()
        .signed_duration_since(epoch)
        .num_days()
}

const RECORD_STR: &str = "2023-01-01T00:00:00+00:00       
2023-01-01T01:00:00+00:00       

2023-01-01T02:00:00+00:00       
2023-01-01T03:00:00+00:00        This is a comment!

2023-01-01T04:00:00+00:00       
";

fn get_record() -> Record {
    Record::parse(RECORD_STR).unwrap()
}

#[test]
fn iterator() {
    let rec = get_record();
    let rec_vec = rec.into_items();

    assert_eq!(
        vec![
            Item::Entry(Entry::try_new(datetime_hm(0, 0), datetime_hm(1, 0), None, None).unwrap()),
            Item::Entry(
                Entry::try_new(
                    datetime_hm(2, 0),
                    datetime_hm(3, 0),
                    None,
                    Some("This is a comment!".to_owned()),
                )
                .unwrap()
            ),
            Item::CurrentSession(datetime_hm(4, 0), None),
        ],
        rec_vec
    );
    let entry = Entry::try_new(datetime_hm(2, 0), datetime_hm(3, 0), None, None).unwrap();
    assert_eq!(3_600_000 * 1_000_000, entry.get_work_duration());
}

#[test]
fn iterator_rev() {
    let rec = get_record();
    let rec_vec = rec.into_items().into_iter().rev().collect::<Vec<_>>();

    assert_eq!(
        vec![
            Item::CurrentSession(datetime_hm(4, 0), None),
            Item::Entry(
                Entry::try_new(
                    datetime_hm(2, 0),
                    datetime_hm(3, 0),
                    None,
                    Some("This is a comment!".to_owned()),
                )
                .unwrap()
            ),
            Item::Entry(Entry::try_new(datetime_hm(0, 0), datetime_hm(1, 0), None, None).unwrap()),
        ],
        rec_vec
    );
}

#[test]
fn range_end_index_x_out_of_range_for_slice_of_length_y() {
    let rec_file = "2023-07-10T05:05:42.372091+00:00 2023-07-10T09:38:44.320091+00:00
2023-07-10T20:00:00+00:00        2023-07-10T22:13:34.369+00:00";
    let rec = Record::parse(rec_file).unwrap();
    let now = nanos(2024, 1, 1, 0, 0);
    paint_day_range(&rec, day_number(2023, 7, 9), day_number(2023, 7, 10), 48, now, 0).unwrap();
}

#[test]
fn range_end_index_x_out_of_range_for_slice_of_length_y_2() {
    let rec_file = "2023-06-04T21:08:34.790590+00:00 2023-06-04T22:32:47.660590+00:00
2023-06-05T04:30:04.199633+00:00 2023-06-05T07:18:50.734633+00:00";
    let rec = Record::parse(rec_file).unwrap();
    let now = nanos(2024, 1, 1, 0, 0);
    paint_day_range(&rec, day_number(2023, 6, 4), day_number(2023, 6, 5), 48, now, 0).unwrap();
}

#[test]
fn range_end_index_x_out_of_range_for_slice_of_length_y_3() {
    let rec_file = "2023-06-30T04:30:00.893153+00:00
2023-06-30T07:15:07.931153+00:00

2023-07-10T05:05:42.372091+00:00
2023-07-10T09:38:44.320091+00:00

2023-07-10T20:00:00+00:00       
2023-07-10T22:13:34.369+00:00   

2023-07-11T04:30:55.569838+00:00
2023-07-11T05:05:55.569838+00:00

2023-07-11T09:01:20.726248+00:00
2023-07-11T12:08:36.149248+00:00

2023-07-11T12:32:28.616529+00:00
2023-07-11T14:27:00.836529+00:00

2023-07-11T20:03:53.114039+00:00
2023-07-11T22:41:25.885039+00:00

2023-07-12T04:30:00+00:00       
2023-07-12T04:54:25.885+00:00   

2023-07-12T09:30:00+00:00       
2023-07-12T13:00:00+00:00       

2023-07-12T22:04:34.947469+00:00
2023-07-12T23:29:44.706469+00:00

2023-07-13T09:08:38.290767+00:00
2023-07-13T10:34:50.199767+00:00
";
    let rec = Record::parse(rec_file).unwrap();
    let now = nanos(2024, 1, 1, 0, 0);
    paint_day_range(&rec, day_number(2023, 7, 10), day_number(2023, 7, 12), 24, now, 12 * 3600)
        .unwrap();
}

#[test]
fn read_write_read_integrity() {
    let rec = Record::parse(RECORD_STR).unwrap();
    let written = rec.serialize();

    assert_eq!(RECORD_STR, &written);
}

#[test]
fn current_session_with_multiword_comment() {
    let rec_file = "2023-01-01T04:00:00.000000+00:00 Blah blah blah
";
    let rec = Record::parse(rec_file).unwrap();
    let rec_vec = rec.into_items().into_iter().rev().collect::<Vec<_>>();

    assert_eq!(
        vec![Item::CurrentSession(datetime_hm(4, 0), Some("Blah blah blah".to_string()))],
        rec_vec
    );
}

#[test]
fn one_entry_with_multiword_out_comment() {
    let rec_file = "2023-01-01T04:00:00.000000+00:00
2023-01-01T05:00:00.000000+00:00 Blah blah blah
";
    let rec = Record::parse(rec_file).unwrap();
    let rec_vec = rec.into_items().into_iter().rev().collect::<Vec<_>>();

    let entry = Entry::try_new(
        datetime_hm(4, 0),
        datetime_hm(5, 0),
        None,
        Some("Blah blah blah".to_string()),
    )
    .unwrap();
    assert_eq!(3_600_000 * 1_000_000, entry.get_work_duration());
    assert_eq!(vec![Item::Entry(entry)], rec_vec);
}

#[test]
fn one_entry_with_multiword_in_comment() {
    let rec_file = "2023-01-01T04:00:00.000000+00:00 Blah blah blah
2023-01-01T05:00:00.000000+00:00
";
    let rec = Record::parse(rec_file).unwrap();
    let rec_vec = rec.into_items().into_iter().rev().collect::<Vec<_>>();

    let entry = Entry::try_new(
        datetime_hm(4, 0),
        datetime_hm(5, 0),
        Some("Blah blah blah".to_string()),
        None,
    )
    .unwrap();
    assert_eq!(3_600_000 * 1_000_000, entry.get_work_duration());
    assert_eq!(vec![Item::Entry(entry)], rec_vec);
}
