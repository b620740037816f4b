//! Instants, days at a fixed UTC offset, durations, and their text.
//!
//! An instant is a count of nanoseconds since 1970-01-01T00:00:00Z held in
//! an `i64`; a duration is a signed count of nanoseconds held in an `i128`.
//! A day is a count of days since 1970-01-01 as seen at an offset east of
//! UTC, in seconds.
use vstd::prelude::*;
use crate::text::is_white;
use std::fmt::Write;

verus! {

/// Nanoseconds in a second.
pub const NANOS_PER_SEC: i128 = 1_000_000_000;

/// Nanoseconds in a minute.
pub const NANOS_PER_MINUTE: i128 = 60_000_000_000;

/// Nanoseconds in an hour.
pub const NANOS_PER_HOUR: i128 = 3_600_000_000_000;

/// Nanoseconds in a day.
pub const NANOS_PER_DAY: i128 = 86_400_000_000_000;

/// An offset east of UTC, in seconds, that a fixed time zone can have.
pub open spec fn valid_offset(offset: i32) -> bool {
    -86_400 < offset < 86_400
}

/// The day (since 1970-01-01) that instant `t` falls on at `offset`.
pub open spec fn local_day(t: int, offset: int) -> int {
    (t + offset * 1_000_000_000) / 86_400_000_000_000
}

/// The first instant of day `d` at `offset`.
pub open spec fn day_start(d: int, offset: int) -> int {
    d * 86_400_000_000_000 - offset * 1_000_000_000
}

/// Whether `x` fits in an `i64`.
pub open spec fn in_i64(x: int) -> bool {
    i64::MIN <= x <= i64::MAX
}

/// What chrono's RFC 3339 parser gives for `s`, as nanoseconds since the
/// epoch; `None` where it refuses the text or the instant leaves `i64`.
pub uninterp spec fn rfc3339_instant(s: Seq<char>) -> Option<i64>;

/// chrono's RFC 3339 text of the instant `nanos`, written in UTC.
pub uninterp spec fn rfc3339_text(nanos: i64) -> Seq<char>;

/// chrono's rendering of the instant `nanos`, seen at `offset`, by the
/// strftime-style format `fmt`; `None` where chrono refuses the format.
pub uninterp spec fn formatted_instant(nanos: i64, offset: i32, fmt: Seq<char>) -> Option<
    Seq<char>,
>;

/// Relies on chrono's `DateTime::parse_from_rfc3339` and
/// `DateTime::timestamp_nanos_opt`: the instant that RFC 3339 text names.
#[verifier::external_body]
pub(crate) fn parse_instant(s: &str) -> (r: Option<i64>)
    ensures
        r == rfc3339_instant(s@),
{
    match chrono::DateTime::parse_from_rfc3339(s) {
        Ok(dt) => dt.timestamp_nanos_opt(),
        Err(_) => None,
    }
}

/// Relies on chrono's `DateTime::<Utc>::from_timestamp_nanos` and
/// `DateTime::to_rfc3339`: the instant as RFC 3339 text in UTC, such as
/// `2023-01-01T04:00:00+00:00`. The text is not empty, holds no white space,
/// and chrono's RFC 3339 parser reads it back as the same instant.
#[verifier::external_body]
pub(crate) fn instant_text(nanos: i64) -> (r: String)
    ensures
        r@ == rfc3339_text(nanos),
        r@.len() > 0,
        forall|i: int| 0 <= i < r@.len() ==> !is_white(#[trigger] r@[i]),
        rfc3339_instant(r@) == Some(nanos),
{
    chrono::DateTime::from_timestamp_nanos(nanos).to_rfc3339()
}

/// Relies on chrono's `FixedOffset::east_opt`, `DateTime::with_timezone` and
/// `DateTime::format`: the instant seen at `offset`, rendered by the
/// strftime-style format `fmt`; `None` where chrono refuses the format.
#[verifier::external_body]
pub(crate) fn format_instant(nanos: i64, offset: i32, fmt: &str) -> (r: Option<String>)
    requires
        valid_offset(offset),
    ensures
        formatted_instant(nanos, offset, fmt@) == match r {
            Some(t) => Some(t@),
            None => None::<Seq<char>>,
        },
{
    let zone = chrono::FixedOffset::east_opt(offset).unwrap();
    let local = chrono::DateTime::from_timestamp_nanos(nanos).with_timezone(&zone);
    let mut out = String::new();
    match write!(out, "{}", local.format(fmt)) {
        Ok(()) => Some(out),
        Err(_) => None,
    }
}

/// The day that instant `t` falls on at `offset`.
pub fn day_of(t: i64, offset: i32) -> (r: i64)
    requires
        valid_offset(offset),
    ensures
        r == local_day(t as int, offset as int),
        -200_000 <= r <= 200_000,
{
    let shifted: i128 = t as i128 + offset as i128 * NANOS_PER_SEC;
    let q = shifted.checked_div_euclid(NANOS_PER_DAY).unwrap();
    proof {
        assert(q == local_day(t as int, offset as int));
        assert(-200_000 <= q <= 200_000) by {
            assert(-10_000_000_000_000_000_000 <= shifted <= 10_000_000_000_000_000_000);
        }
    }
    q as i64
}

/// The first instant of day `day` at `offset`; `None` where it leaves `i64`.
pub fn day_start_instant(day: i64, offset: i32) -> (r: Option<i64>)
    requires
        valid_offset(offset),
    ensures
        r == if in_i64(day_start(day as int, offset as int)) {
            Some(day_start(day as int, offset as int) as i64)
        } else {
            None::<i64>
        },
{
    let start: i128 = day as i128 * NANOS_PER_DAY - offset as i128 * NANOS_PER_SEC;
    if start < i64::MIN as i128 || start > i64::MAX as i128 {
        None
    } else {
        Some(start as i64)
    }
}

/// Decimal digits of `n`.
pub open spec fn decimal(n: nat) -> Seq<char>
    decreases n,
{
    if n < 10 {
        seq![digit_char(n)]
    } else {
        decimal(n / 10) + seq![digit_char(n % 10)]
    }
}

/// The digit character for `d < 10`.
pub open spec fn digit_char(d: nat) -> char {
    if d == 0 {
        '0'
    } else if d == 1 {
        '1'
    } else if d == 2 {
        '2'
    } else if d == 3 {
        '3'
    } else if d == 4 {
        '4'
    } else if d == 5 {
        '5'
    } else if d == 6 {
        '6'
    } else if d == 7 {
        '7'
    } else if d == 8 {
        '8'
    } else {
        '9'
    }
}

fn digit(d: u128) -> (r: char)
    requires
        d < 10,
    ensures
        r == digit_char(d as nat),
{
    if d == 0 {
        '0'
    } else if d == 1 {
        '1'
    } else if d == 2 {
        '2'
    } else if d == 3 {
        '3'
    } else if d == 4 {
        '4'
    } else if d == 5 {
        '5'
    } else if d == 6 {
        '6'
    } else if d == 7 {
        '7'
    } else if d == 8 {
        '8'
    } else {
        '9'
    }
}

/// The decimal digits of `n`.
pub fn decimal_chars(n: u128) -> (r: Vec<char>)
    ensures
        r@ == decimal(n as nat),
    decreases n,
{
    if n < 10 {
        let mut r: Vec<char> = Vec::new();
        r.push(digit(n));
        proof {
            assert(r@ =~= decimal(n as nat));
        }
        r
    } else {
        let mut r = decimal_chars(n / 10);
        r.push(digit(n % 10));
        proof {
            assert(r@ =~= decimal(n as nat));
        }
        r
    }
}

/// Appends the characters of a string literal to `out`.
pub(crate) fn push_str(out: &mut Vec<char>, s: &str)
    ensures
        final(out)@ == old(out)@ + s@,
{
    let n = s.unicode_len();
    let mut i: usize = 0;
    let ghost start = out@;
    while i < n
        invariant
            i <= n,
            n == s@.len(),
            out@ == start + s@.take(i as int),
        decreases n - i,
    {
        out.push(s.get_char(i));
        i += 1;
        proof {
            assert(out@ =~= start + s@.take(i as int));
        }
    }
    proof {
        assert(s@.take(n as int) =~= s@);
    }
}

/// `|d|` in whole days, hours and minutes, truncated.
pub open spec fn whole(d: int, unit: int) -> nat {
    (if d < 0 {
        -d
    } else {
        d
    }) as nat / unit as nat
}

/// The text that describes the length of a duration: `"D days, H hours, M minutes"`,
/// `"H hours, M minutes"` under a day, or `"M minutes"` under an hour.
pub open spec fn human_text(d: int) -> Seq<char> {
    let days = whole(d, 86_400_000_000_000);
    let hours = whole(d, 3_600_000_000_000);
    let minutes = whole(d, 60_000_000_000);
    if days > 0 {
        decimal(days) + " days, "@ + decimal(hours % 24) + " hours, "@ + decimal(minutes % 60)
            + " minutes"@
    } else if hours > 0 {
        decimal(hours % 24) + " hours, "@ + decimal(minutes % 60) + " minutes"@
    } else {
        decimal(minutes % 60) + " minutes"@
    }
}

/// The length of `duration` (nanoseconds) in days, hours and minutes.
pub fn human_readable_duration(duration: i128) -> (r: String)
    ensures
        r@ == human_text(duration as int),
{
    crate::text::string_of(&duration_chars(duration))
}

/// The characters of the length of `duration` in days, hours and minutes.
pub(crate) fn duration_chars(duration: i128) -> (r: Vec<char>)
    ensures
        r@ == human_text(duration as int),
{
    let magnitude: u128 = if duration < 0 {
        (-(duration + 1)) as u128 + 1
    } else {
        duration as u128
    };
    let days = magnitude / (NANOS_PER_DAY as u128);
    let hours = magnitude / (NANOS_PER_HOUR as u128);
    let minutes = magnitude / (NANOS_PER_MINUTE as u128);
    let mut out: Vec<char> = Vec::new();
    if days > 0 {
        out.append(&mut decimal_chars(days));
        push_str(&mut out, " days, ");
        out.append(&mut decimal_chars(hours % 24));
        push_str(&mut out, " hours, ");
    } else if hours > 0 {
        out.append(&mut decimal_chars(hours % 24));
        push_str(&mut out, " hours, ");
    }
    out.append(&mut decimal_chars(minutes % 60));
    push_str(&mut out, " minutes");
    proof {
        reveal_strlit(" days, ");
        reveal_strlit(" hours, ");
        reveal_strlit(" minutes");
        assert(out@ =~= human_text(duration as int));
    }
    out
}

/// A duration relative to now: negative in the past.
#[derive(Debug, Clone, Copy, PartialEq, Eq, Structural)]
pub struct Ago(pub i128);

impl Ago {
    /// The length of the duration, then " ago" where it is negative, else
    /// " from now".
    pub fn text(&self) -> (r: String)
        ensures
            r@ == human_text(self.0 as int) + if self.0 < 0 {
                " ago"@
            } else {
                " from now"@
            },
    {
        let mut out = duration_chars(self.0);
        if self.0 < 0 {
            push_str(&mut out, " ago");
        } else {
            push_str(&mut out, " from now");
        }
        crate::text::string_of(&out)
    }
}

} // verus!
