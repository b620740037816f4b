//! Calendar lines: intervals drawn onto a fixed number of cells in
//! proportion to a window of time.
use vstd::prelude::*;
use crate::error::Main;
use crate::range::{bounds_of, span_sum, total_span, DateTimeRange};
use crate::record::{cropped, day_total, day_window, earlier, item_pairs, lemma_crop_within, Record};
use crate::text::string_of;
use crate::time::{
    day_start, day_start_instant, decimal, decimal_chars, format_instant, formatted_instant,
    duration_chars, human_text, in_i64, push_str, valid_offset, whole,
};
use crate::text::chars_of;

verus! {

/// The glyph of an occupied cell.
pub const FULL: char = '\u{2593}';

/// The glyph of an empty cell where index parity and shift differ.
pub const LIGHT: char = '\u{2591}';

/// The glyph of an empty cell where index parity and shift agree.
pub const MEDIUM: char = '\u{2592}';

/// The cell where instant `t` falls, for `width` cells over the window
/// `[ws, we]`: `width * (t - ws) / (we - ws)` rounded to the nearest
/// integer, halves rounded up.
pub open spec fn cell(t: int, ws: int, we: int, width: int) -> int {
    let p = width * (t - ws);
    let d = we - ws;
    if 2 * (p % d) >= d {
        p / d + 1
    } else {
        p / d
    }
}

/// Whether cell `i` lies under one of the ranges: from the cell of its
/// start up to, not including, the cell of its end.
pub open spec fn occupied(ranges: Seq<(i64, i64)>, ws: int, we: int, width: int, i: int) -> bool
    decreases ranges.len(),
{
    if ranges.len() == 0 {
        false
    } else {
        occupied(ranges.drop_last(), ws, we, width, i) || (cell(
            ranges.last().0 as int,
            ws,
            we,
            width,
        ) <= i && i < cell(ranges.last().1 as int, ws, we, width))
    }
}

/// The glyph of cell `i`: full where occupied, else one of two background
/// glyphs by the parity of `i` exclusive-or `shift`.
pub open spec fn glyph(occ: bool, i: int, shift: bool) -> char {
    if occ {
        '\u{2593}'
    } else if (i % 2 != 0) != shift {
        '\u{2591}'
    } else {
        '\u{2592}'
    }
}

/// The line drawn for the ranges over the window.
pub open spec fn painted(ranges: Seq<(i64, i64)>, ws: int, we: int, width: nat, shift: bool) -> Seq<
    char,
> {
    Seq::new(width, |i: int| glyph(occupied(ranges, ws, we, width as int, i), i, shift))
}

/// Every range lies within the window `[ws, we]`.
pub open spec fn within(ranges: Seq<(i64, i64)>, ws: int, we: int) -> bool {
    forall|j: int|
        0 <= j < ranges.len() ==> ws <= (#[trigger] ranges[j]).0 && ranges[j].0 <= ranges[j].1
            && ranges[j].1 <= we
}

/// The cell where `t` falls.
fn cell_of(t: i64, ws: i64, we: i64, width: usize) -> (r: usize)
    requires
        ws < we,
        ws <= t <= we,
    ensures
        r == cell(t as int, ws as int, we as int, width as int),
        r <= width,
{
    let d: u128 = (we as i128 - ws as i128) as u128;
    let n: u128 = (t as i128 - ws as i128) as u128;
    proof {
        assert(n <= d);
        assert(d < 0x1_0000_0000_0000_0000);
        assert(width as int * n <= 0xffff_ffff_ffff_ffff * 0x1_0000_0000_0000_0000) by (
        nonlinear_arith)
            requires
                width <= 0xffff_ffff_ffff_ffff,
                n < 0x1_0000_0000_0000_0000,
        ;
    }
    let p: u128 = width as u128 * n;
    let q = p / d;
    let rem = p % d;
    proof {
        vstd::arithmetic::div_mod::lemma_fundamental_div_mod(p as int, d as int);
        assert(q <= width) by (nonlinear_arith)
            requires
                p == d * q + rem,
                0 <= rem,
                p == width * n,
                n <= d,
                d > 0,
        ;
        assert(q == width ==> rem == 0) by (nonlinear_arith)
            requires
                p == d * q + rem,
                0 <= rem < d,
                p == width * n,
                n <= d,
                d > 0,
        ;
    }
    if rem * 2 >= d {
        (q + 1) as usize
    } else {
        q as usize
    }
}

/// Draws the ranges onto `width` cells in proportion to `window`; the
/// ranges lie within the window.
pub fn paint_datetime_ranges_line(
    datetime_ranges: &Vec<DateTimeRange>,
    window: &DateTimeRange,
    width: usize,
    background_shift: bool,
) -> (r: String)
    requires
        window@.0 < window@.1,
        within(bounds_of(datetime_ranges@), window@.0 as int, window@.1 as int),
    ensures
        r@ == painted(
            bounds_of(datetime_ranges@),
            window@.0 as int,
            window@.1 as int,
            width as nat,
            background_shift,
        ),
{
    let ws = window.start();
    let we = window.end();
    let ghost rs = bounds_of(datetime_ranges@);
    let mut buf: Vec<bool> = Vec::new();
    let mut i: usize = 0;
    while i < width
        invariant
            i <= width,
            buf@.len() == i,
            forall|j: int| 0 <= j < i ==> !buf@[j],
        decreases width - i,
    {
        buf.push(false);
        i += 1;
    }
    let mut k: usize = 0;
    proof {
        assert(rs.take(0) =~= Seq::<(i64, i64)>::empty());
    }
    while k < datetime_ranges.len()
        invariant
            k <= datetime_ranges@.len(),
            rs == bounds_of(datetime_ranges@),
            ws == window@.0,
            we == window@.1,
            ws < we,
            within(rs, ws as int, we as int),
            buf@.len() == width,
            forall|j: int|
                0 <= j < width ==> buf@[j] == occupied(
                    rs.take(k as int),
                    ws as int,
                    we as int,
                    width as int,
                    j,
                ),
        decreases datetime_ranges@.len() - k,
    {
        let range = &datetime_ranges[k];
        proof {
            assert(rs[k as int] == range@);
        }
        let paint_start = cell_of(range.start(), ws, we, width);
        let paint_end = cell_of(range.end(), ws, we, width);
        let ghost before = buf@;
        let mut c: usize = paint_start;
        while c < paint_end
            invariant
                paint_start <= c <= paint_end || (c == paint_start && paint_end < paint_start),
                paint_end <= width,
                buf@.len() == width,
                forall|j: int|
                    0 <= j < width ==> buf@[j] == (before[j] || (paint_start <= j && j < c)),
                forall|j: int|
                    0 <= j < width ==> before[j] == occupied(
                        rs.take(k as int),
                        ws as int,
                        we as int,
                        width as int,
                        j,
                    ),
            decreases paint_end - c,
        {
            buf.set(c, true);
            c += 1;
        }
        proof {
            let t = rs.take(k + 1);
            assert(t.drop_last() =~= rs.take(k as int));
            assert(t.last() == range@);
            assert forall|j: int| 0 <= j < width implies buf@[j] == occupied(
                t,
                ws as int,
                we as int,
                width as int,
                j,
            ) by {
                assert(buf@[j] == (before[j] || (paint_start <= j && j < paint_end)));
                assert(before[j] == occupied(t.drop_last(), ws as int, we as int, width as int, j));
                assert(occupied(t, ws as int, we as int, width as int, j) == (occupied(
                    t.drop_last(),
                    ws as int,
                    we as int,
                    width as int,
                    j,
                ) || (paint_start <= j && j < paint_end)));
            }
        }
        k += 1;
    }
    proof {
        assert(rs.take(k as int) =~= rs);
    }
    let mut out: Vec<char> = Vec::new();
    let mut i: usize = 0;
    while i < width
        invariant
            i <= width,
            buf@.len() == width,
            out@.len() == i,
            forall|j: int|
                0 <= j < i ==> out@[j] == glyph(
                    occupied(rs, ws as int, we as int, width as int, j),
                    j,
                    background_shift,
                ),
            forall|j: int|
                0 <= j < width ==> buf@[j] == occupied(rs, ws as int, we as int, width as int, j),
        decreases width - i,
    {
        let g = if buf[i] {
            FULL
        } else if (i % 2 != 0) != background_shift {
            LIGHT
        } else {
            MEDIUM
        };
        out.push(g);
        i += 1;
    }
    proof {
        assert(out@ =~= painted(rs, ws as int, we as int, width as nat, background_shift));
    }
    string_of(&out)
}

/// The first line of a calendar: the whole duration in hours and the
/// minutes past the hour.
pub open spec fn total_line(d: int) -> Seq<char> {
    "Total time: "@ + decimal(whole(d, 3_600_000_000_000)) + " hours, "@ + decimal(
        whole(d, 60_000_000_000) % 60,
    ) + " minutes"@
}

/// The first line of a calendar for a total of `total` nanoseconds.
pub fn total_time_text(total: i128) -> (r: String)
    ensures
        r@ == total_line(total as int),
{
    let magnitude: u128 = if total < 0 {
        (-(total + 1)) as u128 + 1
    } else {
        total as u128
    };
    let mut first: Vec<char> = Vec::new();
    push_str(&mut first, "Total time: ");
    first.append(&mut decimal_chars(magnitude / 3_600_000_000_000));
    push_str(&mut first, " hours, ");
    first.append(&mut decimal_chars((magnitude / 60_000_000_000) % 60));
    push_str(&mut first, " minutes");
    proof {
        assert(first@ =~= total_line(total as int));
    }
    string_of(&first)
}

/// The calendar line of `day`, the `i`-th: its date, a space, its cells,
/// a space, and its total where that is not zero; `None` where the date
/// cannot be formatted.
pub open spec fn day_line(
    r: crate::record::RecordView,
    day: int,
    i: int,
    width: nat,
    now: i64,
    offset: i32,
) -> Option<Seq<char>> {
    let w = day_window(day, offset as int)->0;
    let total = day_total(r, day, now, offset as int);
    match formatted_instant(w.0, offset, "%F"@) {
        Some(label) => Some(
            label + seq![' '] + painted(cropped(r, w.0, w.1, now), w.0 as int, w.1 as int, width, i % 2 != 0)
                + seq![' '] + if total == 0 {
                Seq::empty()
            } else {
                human_text(total)
            },
        ),
        None => None,
    }
}

/// The first instant of day `from` and the last of day `to`.
pub open spec fn window_bounds(from: int, to: int, offset: int) -> (i64, i64) {
    let first = day_window(from, offset)->0;
    let last = day_window(to, offset)->0;
    (first.0, last.1)
}

/// The days from `from` on have windows up to `to`.
proof fn lemma_windows_between(from: int, to: int, offset: int, d: int)
    requires
        from <= d <= to,
        -86_400 < offset < 86_400,
        day_window(from, offset) is Some,
        day_window(to, offset) is Some,
    ensures
        day_window(d, offset) is Some,
{
    assert(day_start(from, offset) <= day_start(d, offset) <= day_start(to, offset)) by (
    nonlinear_arith)
        requires
            from <= d <= to,
    ;
    assert(day_start(from + 1, offset) <= day_start(d + 1, offset) <= day_start(to + 1, offset))
        by (nonlinear_arith)
        requires
            from <= d <= to,
    ;
}

/// What the calendar of the days from `from` to `to` is: its lines, or
/// the error and the inputs that give it.
pub open spec fn calendar_result(
    rec: crate::record::RecordView,
    from: i64,
    to: i64,
    width: usize,
    now: i64,
    offset: i32,
    res: Result<Vec<String>, Main>,
) -> bool {
    let bounds = window_bounds(from as int, to as int, offset as int);
    let windows = day_window(from as int, offset as int) is Some && day_window(
        to as int,
        offset as int,
    ) is Some;
    &&& to < from ==> res == Err::<Vec<String>, Main>(Main::RangeStartPosition)
    &&& from <= to && !windows ==> res == Err::<Vec<String>, Main>(Main::DateOutOfRange)
    &&& res matches Ok(lines) ==> {
        &&& from <= to
        &&& lines@.len() == to - from + 2
        &&& lines@[0]@ == total_line(span_sum(cropped(rec, bounds.0, bounds.1, now)))
        &&& forall|i: int|
            0 <= i <= to - from ==> day_line(rec, from + i, i, width as nat, now, offset) == Some(
                #[trigger] lines@[i + 1]@,
            )
    }
    &&& res matches Err(e) ==> {
        ||| e == Main::RangeStartPosition && to < from
        ||| e == Main::DateOutOfRange && !windows
        ||| e == Main::DurationOverflow && (span_sum(cropped(rec, bounds.0, bounds.1, now))
            > i128::MAX || exists|i: int|
            0 <= i <= to - from && #[trigger] day_total(rec, from + i, now, offset as int)
                > i128::MAX)
        ||| e == Main::Format && exists|i: int|
            0 <= i <= to - from && #[trigger] day_line(rec, from + i, i, width as nat, now, offset)
                is None
    }
    &&& from <= to && windows && span_sum(cropped(rec, bounds.0, bounds.1, now)) <= i128::MAX
        && (forall|i: int|
        #![trigger day_total(rec, from + i, now, offset as int)]
        #![trigger day_line(rec, from + i, i, width as nat, now, offset)]
        0 <= i <= to - from ==> day_total(rec, from + i, now, offset as int) <= i128::MAX
            && day_line(rec, from + i, i, width as nat, now, offset) is Some)
        ==> res is Ok
}

/// The calendar of the days from `from` to `to` (at `offset`), `width`
/// cells a day: first the total over all of them, then a line for each day,
/// the background shifted on every other line. The open session runs until
/// `now`. Fails where `to` comes before `from`, a day's bounds leave `i64`,
/// a sum leaves `i128`, or a date cannot be formatted.
pub fn paint_day_range(
    record: &Record,
    from: i64,
    to: i64,
    width: usize,
    now: i64,
    offset: i32,
) -> (r: Result<Vec<String>, Main>)
    requires
        valid_offset(offset),
    ensures
        calendar_result(record@, from, to, width, now, offset, r),
{
    if to < from {
        return Err(Main::RangeStartPosition);
    }
    let ws = match day_start_instant(from, offset) {
        Some(t) => t,
        None => {
            return Err(Main::DateOutOfRange);
        },
    };
    let last_start = match day_start_instant(to, offset) {
        Some(t) => t,
        None => {
            proof {
                assert(day_window(to as int, offset as int) is None);
            }
            return Err(Main::DateOutOfRange);
        },
    };
    proof {
        assert(to < i64::MAX) by (nonlinear_arith)
            requires
                in_i64(day_start(to as int, offset as int)),
                -86_400 < offset < 86_400,
        ;
    }
    let after = match day_start_instant(to + 1, offset) {
        Some(t) => t,
        None => {
            return Err(Main::DateOutOfRange);
        },
    };
    proof {
        assert(day_window(from as int, offset as int) is Some) by {
            assert(day_start(from as int + 1, offset as int) <= day_start(to as int + 1, offset as int)) by (nonlinear_arith)
                requires
                    from <= to,
            ;
            assert(day_start(from as int + 1, offset as int) > day_start(from as int, offset as int));
        }
    }
    let we = after - 1;
    proof {
        lemma_crop_within(item_pairs(record@, earlier(now, we)), ws, we);
    }
    let total = match record.try_into_cropped_datetime_ranges(ws, we, now) {
        Ok(ranges) => match total_span(&ranges) {
            Ok(t) => t,
            Err(e) => {
                return Err(e);
            },
        },
        Err(e) => {
            return Err(e);
        },
    };
    let mut lines: Vec<String> = Vec::new();
    lines.push(total_time_text(total));
    let mut d: i64 = from;
    let mut i: usize = 0;
    while d <= to
        invariant
            from <= d <= to + 1,
            to < i64::MAX,
            i == d - from,
            valid_offset(offset),
            day_window(from as int, offset as int) is Some,
            day_window(to as int, offset as int) is Some,
            lines@.len() == i + 1,
            lines@[0]@ == total_line(
                span_sum(
                    cropped(record@, window_bounds(from as int, to as int, offset as int).0, window_bounds(from as int, to as int, offset as int).1, now),
                ),
            ),
            forall|j: int|
                0 <= j < i ==> day_line(record@, from + j, j, width as nat, now, offset) == Some(
                    #[trigger] lines@[j + 1]@,
                ),
        decreases to + 1 - d,
    {
        proof {
            lemma_windows_between(from as int, to as int, offset as int, d as int);
        }
        let start = day_start_instant(d, offset).unwrap();
        let end = day_start_instant(d + 1, offset).unwrap() - 1;
        let ranges = match record.try_into_cropped_datetime_ranges(start, end, now) {
            Ok(v) => v,
            Err(e) => {
                return Err(e);
            },
        };
        let spent = match total_span(&ranges) {
            Ok(t) => t,
            Err(e) => {
                proof {
                    let j = i as int;
                    assert(day_total(record@, from + j, now, offset as int) > i128::MAX);
                    assert(exists|j: int|
                        0 <= j <= to - from && #[trigger] day_total(record@, from + j, now, offset as int)
                            > i128::MAX);
                }
                return Err(e);
            },
        };
        let label = match format_instant(start, offset, "%F") {
            Some(t) => t,
            None => {
                proof {
                    let j = i as int;
                    assert(day_line(record@, from + j, j, width as nat, now, offset) is None);
                    assert(exists|j: int|
                        0 <= j <= to - from && #[trigger] day_line(
                            record@,
                            from + j,
                            j,
                            width as nat,
                            now,
                            offset,
                        ) is None);
                }
                return Err(Main::Format);
            },
        };
        let window = DateTimeRange::new(start, end).unwrap();
        let mut text: Vec<char> = chars_of(label.as_str());
        text.push(' ');
        proof {
            lemma_crop_within(item_pairs(record@, earlier(now, end)), start, end);
        }
        let ghost w = day_window(d as int, offset as int)->0;
        let ghost label_text = formatted_instant(w.0, offset, "%F"@)->0;
        proof {
            assert(w.0 == start && w.1 == end);
            assert(text@ == label_text + seq![' ']);
        }
        let cells = paint_datetime_ranges_line(&ranges, &window, width, i % 2 != 0);
        let mut cell_chars = chars_of(cells.as_str());
        text.append(&mut cell_chars);
        text.push(' ');
        proof {
            assert(text@ == label_text + seq![' '] + painted(cropped(record@, w.0, w.1, now), w.0 as int, w.1 as int, width as nat, i % 2 != 0) + seq![' ']);
            assert(spent == day_total(record@, d as int, now, offset as int));
        }
        if spent != 0 {
            let mut h = duration_chars(spent);
            text.append(&mut h);
        }
        proof {
            assert(text@ =~= day_line(record@, from + i as int, i as int, width as nat, now, offset)->0);
        }
        lines.push(string_of(&text));
        d += 1;
        i += 1;
    }
    Ok(lines)
}

impl Record {
    /// The calendar of the days from `from` to `to`; see `paint_day_range`.
    pub fn paint_calendar(&self, from: i64, to: i64, width: usize, now: i64, offset: i32) -> (r: Result<
        Vec<String>,
        Main,
    >)
        requires
            valid_offset(offset),
        ensures
            calendar_result(self@, from, to, width, now, offset, r),
    {
        paint_day_range(self, from, to, width, now, offset)
    }
}

} // verus!
