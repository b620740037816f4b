//! A non-empty window of time between two instants.
use vstd::prelude::*;
use crate::error::Main;
use crate::time::{day_of, day_start_instant, local_day, valid_offset};
use crate::record::day_window;

verus! {

/// A window `[start, end]` of instants (nanoseconds since the epoch) with
/// `start < end`.
#[derive(Debug, Clone, Copy, PartialEq, Eq)]
pub struct DateTimeRange {
    start: i64,
    end: i64,
}

impl View for DateTimeRange {
    type V = (i64, i64);

    closed spec fn view(&self) -> (i64, i64) {
        (self.start, self.end)
    }
}

/// The sum of `end - start` over the pairs.
pub open spec fn span_sum(ps: Seq<(i64, i64)>) -> int
    decreases ps.len(),
{
    if ps.len() == 0 {
        0
    } else {
        span_sum(ps.drop_last()) + (ps.last().1 - ps.last().0)
    }
}

/// The bounds of each range.
pub open spec fn bounds_of(rs: Seq<DateTimeRange>) -> Seq<(i64, i64)> {
    rs.map_values(|r: DateTimeRange| r@)
}

impl DateTimeRange {
    #[verifier::type_invariant]
    spec fn ordered(&self) -> bool {
        self.start < self.end
    }

    /// The range from `start` to `end`; fails unless `start < end`.
    pub fn new(start: i64, end: i64) -> (r: Result<DateTimeRange, Main>)
        ensures
            start < end ==> (r matches Ok(d) && d@ == (start, end)),
            start >= end ==> r == Err::<DateTimeRange, Main>(Main::RangeStartPosition),
    {
        if start >= end {
            return Err(Main::RangeStartPosition);
        }
        Ok(DateTimeRange { start, end })
    }

    /// The length of the range in nanoseconds.
    pub fn span(&self) -> (r: i128)
        ensures
            r == self@.1 - self@.0,
            r > 0,
    {
        proof {
            use_type_invariant(self);
        }
        self.end as i128 - self.start as i128
    }

    /// The two bounds.
    pub fn into_bounds(self) -> (r: (i64, i64))
        ensures
            r == self@,
    {
        (self.start, self.end)
    }

    /// The first instant.
    pub fn start(&self) -> (r: i64)
        ensures
            r == self@.0,
    {
        self.start
    }

    /// The last instant.
    pub fn end(&self) -> (r: i64)
        ensures
            r == self@.1,
    {
        self.end
    }

    /// Every day (at `offset`) that the range touches, both ends included,
    /// in order.
    pub fn days_covered(&self, offset: i32) -> (r: Vec<i64>)
        requires
            valid_offset(offset),
        ensures
            r@.len() == local_day(self@.1 as int, offset as int) - local_day(
                self@.0 as int,
                offset as int,
            ) + 1,
            forall|i: int|
                0 <= i < r@.len() ==> #[trigger] r@[i] == local_day(self@.0 as int, offset as int)
                    + i,
    {
        proof {
            use_type_invariant(self);
        }
        let first = day_of(self.start, offset);
        let last = day_of(self.end, offset);
        proof {
            assert(first <= last) by (nonlinear_arith)
                requires
                    first == local_day(self.start as int, offset as int),
                    last == local_day(self.end as int, offset as int),
                    self.start < self.end,
            {
                let a = self.start as int + offset as int * 1_000_000_000;
                let b = self.end as int + offset as int * 1_000_000_000;
                assert(a <= b);
                vstd::arithmetic::div_mod::lemma_div_is_ordered(a, b, 86_400_000_000_000);
            }
        }
        let mut r: Vec<i64> = Vec::new();
        let mut d: i64 = first;
        while d <= last
            invariant
                first <= d <= last + 1,
                last <= 200_000,
                r@.len() == d - first,
                forall|i: int| 0 <= i < r@.len() ==> #[trigger] r@[i] == first + i,
            decreases last + 1 - d,
        {
            r.push(d);
            d += 1;
        }
        r
    }
}

/// The sum of the ranges' lengths; fails where it leaves `i128`.
pub fn total_span(ranges: &Vec<DateTimeRange>) -> (r: Result<i128, Main>)
    ensures
        span_sum(bounds_of(ranges@)) <= i128::MAX ==> r == Ok::<i128, Main>(
            span_sum(bounds_of(ranges@)) as i128,
        ),
        span_sum(bounds_of(ranges@)) > i128::MAX ==> r == Err::<i128, Main>(
            Main::DurationOverflow,
        ),
{
    let mut acc: Option<i128> = Some(0);
    let mut k: usize = 0;
    proof {
        assert(bounds_of(ranges@).take(0) =~= Seq::<(i64, i64)>::empty());
    }
    while k < ranges.len()
        invariant
            k <= ranges@.len(),
            span_sum(bounds_of(ranges@).take(k as int)) >= 0,
            span_sum(bounds_of(ranges@).take(k as int)) <= i128::MAX ==> acc == Some(
                span_sum(bounds_of(ranges@).take(k as int)) as i128,
            ),
            span_sum(bounds_of(ranges@).take(k as int)) > i128::MAX ==> acc is None,
        decreases ranges@.len() - k,
    {
        let s = ranges[k].span();
        proof {
            let ps = bounds_of(ranges@);
            assert(ps.take(k + 1).drop_last() =~= ps.take(k as int));
            assert(ps.take(k + 1).last() == ps[k as int]);
        }
        acc = match acc {
            Some(a) => a.checked_add(s),
            None => None,
        };
        k += 1;
    }
    proof {
        assert(bounds_of(ranges@).take(ranges@.len() as int) =~= bounds_of(ranges@));
    }
    match acc {
        Some(a) => Ok(a),
        None => Err(Main::DurationOverflow),
    }
}

/// The window of `day` at `offset`: its first instant to one nanosecond
/// before the next day; fails where either leaves `i64`.
pub fn day_timespan(day: i64, offset: i32) -> (r: Result<DateTimeRange, Main>)
    requires
        valid_offset(offset),
    ensures
        day_window(day as int, offset as int) is None ==> r == Err::<DateTimeRange, Main>(
            Main::DateOutOfRange,
        ),
        day_window(day as int, offset as int) matches Some(w) ==> (r matches Ok(d) && d@ == w),
{
    let start = match day_start_instant(day, offset) {
        Some(t) => t,
        None => {
            return Err(Main::DateOutOfRange);
        },
    };
    proof {
        assert(day < i64::MAX) by (nonlinear_arith)
            requires
                crate::time::in_i64(crate::time::day_start(day as int, offset as int)),
                -86_400 < offset < 86_400,
        ;
    }
    let next = match day_start_instant(day + 1, offset) {
        Some(t) => t,
        None => {
            return Err(Main::DateOutOfRange);
        },
    };
    DateTimeRange::new(start, next - 1)
}

} // verus!
