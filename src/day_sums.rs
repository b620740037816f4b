//! Day-by-day accounting: the total time of a ledger is the sum of the
//! times of the days its items fall on.
use vstd::prelude::*;
use crate::range::span_sum;
use crate::record::{
    clip, closed_pairs, crop_pairs, cropped, day_total, day_window, earlier, entries_ordered,
    item_pairs, session_after, touches, RecordView,
};
use crate::time::{day_start, local_day, valid_offset};

verus! {

/// The window of day `d`.
pub open spec fn window_of(d: int, offset: int) -> (i64, i64) {
    day_window(d, offset)->0
}

/// What a pair adds to the sum of a crop.
pub open spec fn share(p: (i64, i64), start: i64, end: i64) -> int {
    let c = clip(p, start, end);
    if touches(p, start, end) && c.0 < c.1 {
        c.1 - c.0
    } else {
        0
    }
}

/// The sum of the pairs' crops.
pub open spec fn crop_sum(ps: Seq<(i64, i64)>, start: i64, end: i64) -> int
    decreases ps.len(),
{
    if ps.len() == 0 {
        0
    } else {
        crop_sum(ps.drop_last(), start, end) + share(ps.last(), start, end)
    }
}

/// What a pair adds to the crops of the days' windows, together.
pub open spec fn day_shares(p: (i64, i64), days: Seq<int>, offset: int) -> int
    decreases days.len(),
{
    if days.len() == 0 {
        0
    } else {
        let w = day_window(days.last(), offset)->0;
        day_shares(p, days.drop_last(), offset) + share(p, w.0, w.1)
    }
}

/// The sum of the pairs' crops over the days' windows.
pub open spec fn days_crop_sum(ps: Seq<(i64, i64)>, days: Seq<int>, offset: int) -> int
    decreases days.len(),
{
    if days.len() == 0 {
        0
    } else {
        let w = day_window(days.last(), offset)->0;
        days_crop_sum(ps, days.drop_last(), offset) + crop_sum(ps, w.0, w.1)
    }
}

/// The sum of the days' times.
pub open spec fn days_sum(r: RecordView, days: Seq<int>, now: i64, offset: int) -> int
    decreases days.len(),
{
    if days.len() == 0 {
        0
    } else {
        days_sum(r, days.drop_last(), now, offset) + day_total(r, days.last(), now, offset)
    }
}

/// Whether `p` is ordered and both its ends fall on one day.
pub open spec fn single_day(p: (i64, i64), offset: int) -> bool {
    p.0 <= p.1 && local_day(p.0 as int, offset) == local_day(p.1 as int, offset)
}

proof fn lemma_crop_sum(ps: Seq<(i64, i64)>, start: i64, end: i64)
    ensures
        span_sum(crop_pairs(ps, start, end)) == crop_sum(ps, start, end),
    decreases ps.len(),
{
    if ps.len() > 0 {
        lemma_crop_sum(ps.drop_last(), start, end);
        let rest = crop_pairs(ps.drop_last(), start, end);
        let c = clip(ps.last(), start, end);
        assert(rest.push(c).drop_last() =~= rest);
    }
}

/// An instant falls on day `d` exactly when it lies from the day's start up
/// to the next day's start.
proof fn lemma_in_day(t: int, offset: int, d: int)
    requires
        -86_400 < offset < 86_400,
    ensures
        local_day(t, offset) == d <==> (day_start(d, offset) <= t && t < day_start(d + 1, offset)),
        t >= day_start(d, offset) ==> local_day(t, offset) >= d,
        t < day_start(d + 1, offset) ==> local_day(t, offset) <= d,
{
    let x = t + offset * 1_000_000_000;
    vstd::arithmetic::div_mod::lemma_fundamental_div_mod(x, 86_400_000_000_000);
}

/// A pair within one day adds its length to that day's crop and nothing to
/// any other day's.
proof fn lemma_share_day(p: (i64, i64), offset: int, d: int)
    requires
        -86_400 < offset < 86_400,
        single_day(p, offset),
        day_window(d, offset) is Some,
    ensures
        share(p, window_of(d, offset).0, window_of(d, offset).1) == if d == local_day(
            p.0 as int,
            offset,
        ) {
            p.1 - p.0
        } else {
            0
        },
{
    lemma_in_day(p.0 as int, offset, d);
    lemma_in_day(p.1 as int, offset, d);
}

proof fn lemma_day_shares(p: (i64, i64), days: Seq<int>, offset: int)
    requires
        -86_400 < offset < 86_400,
        single_day(p, offset),
        days.no_duplicates(),
        forall|i: int| 0 <= i < days.len() ==> day_window(#[trigger] days[i], offset) is Some,
    ensures
        day_shares(p, days, offset) == if days.contains(local_day(p.0 as int, offset)) {
            p.1 - p.0
        } else {
            0
        },
    decreases days.len(),
{
    if days.len() > 0 {
        let init = days.drop_last();
        assert(init.no_duplicates());
        lemma_day_shares(p, init, offset);
        lemma_share_day(p, offset, days.last());
        let dp = local_day(p.0 as int, offset);
        if days.last() == dp {
            assert(!init.contains(dp));
            assert(days.contains(dp));
        } else {
            assert(days.contains(dp) == init.contains(dp)) by {
                if days.contains(dp) {
                    let i = choose|i: int| 0 <= i < days.len() && days[i] == dp;
                    assert(init[i] == dp);
                }
            }
        }
    }
}

proof fn lemma_days_crop_sum_push(ps: Seq<(i64, i64)>, p: (i64, i64), days: Seq<int>, offset: int)
    ensures
        days_crop_sum(ps.push(p), days, offset) == days_crop_sum(ps, days, offset) + day_shares(
            p,
            days,
            offset,
        ),
    decreases days.len(),
{
    if days.len() > 0 {
        lemma_days_crop_sum_push(ps, p, days.drop_last(), offset);
        assert(ps.push(p).drop_last() =~= ps);
    }
}

proof fn lemma_days_crop_sum_empty(days: Seq<int>, offset: int)
    ensures
        days_crop_sum(Seq::empty(), days, offset) == 0,
    decreases days.len(),
{
    if days.len() > 0 {
        lemma_days_crop_sum_empty(days.drop_last(), offset);
    }
}

proof fn lemma_days_crop_sum(ps: Seq<(i64, i64)>, days: Seq<int>, offset: int)
    requires
        -86_400 < offset < 86_400,
        days.no_duplicates(),
        forall|i: int| 0 <= i < days.len() ==> day_window(#[trigger] days[i], offset) is Some,
        forall|j: int|
            0 <= j < ps.len() ==> single_day(#[trigger] ps[j], offset) && days.contains(
                local_day(ps[j].0 as int, offset),
            ),
    ensures
        days_crop_sum(ps, days, offset) == span_sum(ps),
    decreases ps.len(),
{
    if ps.len() == 0 {
        lemma_days_crop_sum_empty(days, offset);
        assert(ps =~= Seq::<(i64, i64)>::empty());
    } else {
        let init = ps.drop_last();
        lemma_days_crop_sum(init, days, offset);
        lemma_days_crop_sum_push(init, ps.last(), days, offset);
        assert(init.push(ps.last()) =~= ps);
        lemma_day_shares(ps.last(), days, offset);
    }
}

/// A day's time counts the open session as running until `now`, though the
/// crop stops it at the day's end, where the session falls on one day.
proof fn lemma_day_total(r: RecordView, d: int, now: i64, offset: int)
    requires
        -86_400 < offset < 86_400,
        day_window(d, offset) is Some,
        r.session matches Some(s) ==> single_day((s.check_in, now), offset),
    ensures
        day_total(r, d, now, offset) == crop_sum(
            item_pairs(r, now),
            window_of(d, offset).0,
            window_of(d, offset).1,
        ),
{
    let w = day_window(d, offset)->0;
    let until = earlier(now, w.1);
    lemma_crop_sum(item_pairs(r, until), w.0, w.1);
    match r.session {
        Some(s) => {
            assert(item_pairs(r, until).drop_last() =~= closed_pairs(r.entries));
            assert(item_pairs(r, now).drop_last() =~= closed_pairs(r.entries));
            if until != now {
                lemma_in_day(now as int, offset, d + 1);
                lemma_in_day(s.check_in as int, offset, d + 1);
                lemma_in_day(s.check_in as int, offset, d);
                lemma_share_day((s.check_in, now), offset, d);
            }
        },
        None => {},
    }
}

proof fn lemma_days_sum(r: RecordView, days: Seq<int>, now: i64, offset: int)
    requires
        -86_400 < offset < 86_400,
        forall|i: int| 0 <= i < days.len() ==> day_window(#[trigger] days[i], offset) is Some,
        r.session matches Some(s) ==> single_day((s.check_in, now), offset),
    ensures
        days_sum(r, days, now, offset) == days_crop_sum(item_pairs(r, now), days, offset),
    decreases days.len(),
{
    if days.len() > 0 {
        lemma_days_sum(r, days.drop_last(), now, offset);
        lemma_day_total(r, days.last(), now, offset);
    }
}

/// Where no item of the ledger crosses midnight (at `offset`), the total
/// time equals the sum of the times of the days, taken once each, that the
/// items fall on; the open session runs until `now` in both.
pub proof fn lemma_total_time_is_sum_of_days_time(
    r: RecordView,
    now: i64,
    offset: i32,
    days: Seq<int>,
)
    requires
        valid_offset(offset),
        entries_ordered(r),
        !session_after(r, now),
        days.no_duplicates(),
        forall|i: int| 0 <= i < days.len() ==> day_window(#[trigger] days[i], offset as int) is Some,
        forall|j: int|
            0 <= j < item_pairs(r, now).len() ==> single_day(
                #[trigger] item_pairs(r, now)[j],
                offset as int,
            ) && days.contains(local_day(item_pairs(r, now)[j].0 as int, offset as int)),
    ensures
        span_sum(item_pairs(r, now)) == days_sum(r, days, now, offset as int),
{
    let ps = item_pairs(r, now);
    match r.session {
        Some(s) => {
            assert(ps[ps.len() - 1] == (s.check_in, now));
        },
        None => {},
    }
    lemma_days_sum(r, days, now, offset as int);
    lemma_days_crop_sum(ps, days, offset as int);
}

} // verus!
