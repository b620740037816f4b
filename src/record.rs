//! The ledger: closed entries in order, and at most one open session after
//! them.
use vstd::prelude::*;
use crate::error::Main;
use crate::range::{bounds_of, span_sum, total_span, DateTimeRange};
use crate::text::{
    chars_of, join_spaced, join_with_spaces, seqs_of, sparse_split, sparse_tokens, string_of,
};
use crate::round_trip::{stamp_reads_back, stamps_read_back};
use crate::time::{
    day_of, day_start, day_start_instant, in_i64, instant_text, local_day, parse_instant, rfc3339_instant,
    rfc3339_text, valid_offset,
};

verus! {

/// A closed entry as plain values.
pub struct EntryView {
    pub check_in: i64,
    pub check_out: i64,
    pub in_comment: Option<Seq<char>>,
    pub out_comment: Option<Seq<char>>,
}

/// An open session as plain values.
pub struct SessionView {
    pub check_in: i64,
    pub in_comment: Option<Seq<char>>,
}

/// A ledger as plain values.
pub struct RecordView {
    pub entries: Seq<EntryView>,
    pub session: Option<SessionView>,
}

/// The characters of an optional string.
pub open spec fn opt_view(o: Option<String>) -> Option<Seq<char>> {
    match o {
        Some(s) => Some(s@),
        None => None,
    }
}

/// A closed work interval: check-in no later than check-out (instants in
/// nanoseconds since the epoch), with optional comments.
#[derive(Debug, PartialEq, Eq)]
pub struct Entry {
    check_in: i64,
    check_out: i64,
    in_comment: Option<String>,
    out_comment: Option<String>,
}

impl View for Entry {
    type V = EntryView;

    closed spec fn view(&self) -> EntryView {
        EntryView {
            check_in: self.check_in,
            check_out: self.check_out,
            in_comment: opt_view(self.in_comment),
            out_comment: opt_view(self.out_comment),
        }
    }
}

impl Entry {
    #[verifier::type_invariant]
    spec fn ordered(&self) -> bool {
        self.check_in <= self.check_out
    }

    /// The entry from `check_in` to `check_out`; fails where check-out comes
    /// before check-in. Equal instants give an entry of zero length.
    pub fn try_new(
        check_in: i64,
        check_out: i64,
        in_comment: Option<String>,
        out_comment: Option<String>,
    ) -> (r: Result<Entry, Main>)
        ensures
            check_out < check_in ==> r == Err::<Entry, Main>(Main::CheckOutBeforeCheckIn),
            check_in <= check_out ==> (r matches Ok(e) && e@ == (EntryView {
                check_in,
                check_out,
                in_comment: opt_view(in_comment),
                out_comment: opt_view(out_comment),
            })),
    {
        if check_out < check_in {
            return Err(Main::CheckOutBeforeCheckIn);
        }
        Ok(Entry { check_in, check_out, in_comment, out_comment })
    }

    /// The check-in instant.
    pub fn check_in(&self) -> (r: i64)
        ensures
            r == self@.check_in,
            r <= self@.check_out,
    {
        proof {
            use_type_invariant(self);
        }
        self.check_in
    }

    /// The check-out instant.
    pub fn get_check_out(&self) -> (r: i64)
        ensures
            r == self@.check_out,
            self@.check_in <= r,
    {
        proof {
            use_type_invariant(self);
        }
        self.check_out
    }

    /// The comment made at check-in.
    pub fn in_comment(&self) -> (r: &Option<String>)
        ensures
            opt_view(*r) == self@.in_comment,
    {
        &self.in_comment
    }

    /// The comment made at check-out.
    pub fn out_comment(&self) -> (r: &Option<String>)
        ensures
            opt_view(*r) == self@.out_comment,
    {
        &self.out_comment
    }

    /// How long the entry lasted, in nanoseconds.
    pub fn get_work_duration(&self) -> (r: i128)
        ensures
            r == self@.check_out - self@.check_in,
            r >= 0,
    {
        proof {
            use_type_invariant(self);
        }
        self.check_out as i128 - self.check_in as i128
    }
}

/// A copy of an optional comment.
pub(crate) fn copy_comment(c: &Option<String>) -> (r: Option<String>)
    ensures
        opt_view(r) == opt_view(*c),
{
    match c {
        Some(s) => Some(s.clone()),
        None => None,
    }
}

impl Clone for Entry {
    fn clone(&self) -> (r: Entry)
        ensures
            r@ == self@,
    {
        proof {
            use_type_invariant(self);
        }
        Entry {
            check_in: self.check_in,
            check_out: self.check_out,
            in_comment: copy_comment(&self.in_comment),
            out_comment: copy_comment(&self.out_comment),
        }
    }
}

/// A check-in without a check-out yet.
#[derive(Debug, Clone, PartialEq, Eq)]
pub struct Session {
    pub check_in: i64,
    pub in_comment: Option<String>,
}

impl View for Session {
    type V = SessionView;

    open spec fn view(&self) -> SessionView {
        SessionView { check_in: self.check_in, in_comment: opt_view(self.in_comment) }
    }
}

/// One element of the ledger, oldest first: a closed entry or the open session.
#[derive(Debug, PartialEq, Eq)]
pub enum Item {
    Entry(Entry),
    CurrentSession(i64, Option<String>),
}

impl Item {
    /// The item as a closed entry; an open session is closed at `end`, and
    /// that fails where `end` comes before its check-in.
    pub fn into_entry(self, end: i64) -> (r: Result<Entry, Main>)
        ensures
            self matches Item::Entry(e) ==> r == Ok::<Entry, Main>(e),
            self matches Item::CurrentSession(t, c) ==> (end < t ==> r == Err::<Entry, Main>(
                Main::CheckOutBeforeCheckIn,
            )) && (t <= end ==> (r matches Ok(e) && e@ == (EntryView {
                check_in: t,
                check_out: end,
                in_comment: opt_view(c),
                out_comment: None,
            }))),
    {
        match self {
            Item::Entry(entry) => Ok(entry),
            Item::CurrentSession(check_in, in_comment) => Entry::try_new(
                check_in,
                end,
                in_comment,
                None,
            ),
        }
    }
}

/// The most recent element of a ledger.
pub enum Latest<'a> {
    Entry(&'a Entry),
    Current(&'a Session),
    Empty,
}

/// Every entry of the view checks in no later than it checks out.
pub open spec fn entries_ordered(r: RecordView) -> bool {
    forall|i: int| 0 <= i < r.entries.len() ==> #[trigger] r.entries[i].check_in <= r.entries[i].check_out
}

/// The entries as pairs of instants.
pub open spec fn closed_pairs(es: Seq<EntryView>) -> Seq<(i64, i64)> {
    es.map_values(|e: EntryView| (e.check_in, e.check_out))
}

/// Every item as a pair of instants, oldest first; the open session runs
/// until `until`.
pub open spec fn item_pairs(r: RecordView, until: i64) -> Seq<(i64, i64)> {
    match r.session {
        Some(s) => closed_pairs(r.entries).push((s.check_in, until)),
        None => closed_pairs(r.entries),
    }
}

/// The earlier of two instants.
pub open spec fn earlier(a: i64, b: i64) -> i64 {
    if a < b {
        a
    } else {
        b
    }
}

/// Whether either end of `p` lies in the half-open window `[start, end)`.
pub open spec fn touches(p: (i64, i64), start: i64, end: i64) -> bool {
    (start <= p.0 && p.0 < end) || (start <= p.1 && p.1 < end)
}

/// `p` clipped to the window from `start` to `end`.
pub open spec fn clip(p: (i64, i64), start: i64, end: i64) -> (i64, i64) {
    (if p.0 < start {
        start
    } else {
        p.0
    }, if p.1 > end {
        end
    } else {
        p.1
    })
}

/// The pairs that touch the window, clipped to it, in order; a pair that
/// clips to nothing is left out.
pub open spec fn crop_pairs(ps: Seq<(i64, i64)>, start: i64, end: i64) -> Seq<(i64, i64)>
    decreases ps.len(),
{
    if ps.len() == 0 {
        seq![]
    } else {
        let rest = crop_pairs(ps.drop_last(), start, end);
        let c = clip(ps.last(), start, end);
        if touches(ps.last(), start, end) && c.0 < c.1 {
            rest.push(c)
        } else {
            rest
        }
    }
}

/// The ledger cropped to the window from `start` to `end`, the open session
/// running until `now` but never past `end`.
pub open spec fn cropped(r: RecordView, start: i64, end: i64, now: i64) -> Seq<(i64, i64)> {
    crop_pairs(item_pairs(r, earlier(now, end)), start, end)
}

/// Whether an open session checked in after `now`.
pub open spec fn session_after(r: RecordView, now: i64) -> bool {
    r.session matches Some(s) && now < s.check_in
}

/// How many of the last pairs end on day `today`, counting back from the
/// newest and stopping at the first that does not.
pub open spec fn today_count(ps: Seq<(i64, i64)>, today: int, offset: int) -> nat
    decreases ps.len(),
{
    if ps.len() > 0 && local_day(ps.last().1 as int, offset) == today {
        today_count(ps.drop_last(), today, offset) + 1
    } else {
        0
    }
}

/// The time spent on day `today`: the newest pairs that end on it, the
/// oldest of them counted from the start of the day where it began earlier.
pub open spec fn todays_sum(ps: Seq<(i64, i64)>, today: int, offset: int) -> int {
    let k = today_count(ps, today, offset);
    if k == 0 {
        0
    } else {
        let kept = ps.skip(ps.len() - k);
        let first = kept[0];
        let begin = if local_day(first.0 as int, offset) == today {
            first.0 as int
        } else {
            day_start(today, offset)
        };
        (first.1 - begin) + span_sum(kept.drop_first())
    }
}

/// Text of the ledger: pads a timestamp to 32 characters.
pub open spec fn padded(t: Seq<char>) -> Seq<char> {
    if t.len() < 32 {
        t + Seq::new((32 - t.len()) as nat, |i: int| ' ')
    } else {
        t
    }
}

/// A line of the ledger: a padded timestamp, then a space and the comment
/// if there is one.
pub open spec fn stamp_line(t: i64, c: Option<Seq<char>>) -> Seq<char> {
    padded(rfc3339_text(t)) + match c {
        Some(c) => seq![' '] + c,
        None => Seq::empty(),
    }
}

/// The paragraph of a closed entry, with the blank line after it.
pub open spec fn entry_text(e: EntryView) -> Seq<char> {
    stamp_line(e.check_in, e.in_comment) + seq!['\n'] + stamp_line(e.check_out, e.out_comment)
        + seq!['\n', '\n']
}

/// The paragraphs of the entries, in order.
pub open spec fn entries_text(es: Seq<EntryView>) -> Seq<char>
    decreases es.len(),
{
    if es.len() == 0 {
        Seq::empty()
    } else {
        entries_text(es.drop_last()) + entry_text(es.last())
    }
}

/// The ledger's text: the entries' paragraphs, then the open session's line.
pub open spec fn record_text(r: RecordView) -> Seq<char> {
    entries_text(r.entries) + match r.session {
        Some(s) => stamp_line(s.check_in, s.in_comment) + seq!['\n'],
        None => Seq::empty(),
    }
}

/// The timestamp token of a line and the comment after it (the remaining
/// tokens joined by single spaces); `None` for a line without tokens.
pub open spec fn stamp_parts(line: Seq<char>) -> Option<(Seq<char>, Option<Seq<char>>)> {
    let ts = sparse_tokens(line, seq![' ']);
    if ts.len() == 0 {
        None
    } else if ts.len() == 1 {
        Some((ts[0], None))
    } else {
        Some((ts[0], Some(join_spaced(ts.skip(1)))))
    }
}

/// The entry that a check-in line and a check-out line describe.
pub open spec fn entry_of_lines(l1: Seq<char>, l2: Seq<char>) -> Result<EntryView, Main> {
    match (stamp_parts(l1), stamp_parts(l2)) {
        (Some(a), Some(b)) => match (rfc3339_instant(a.0), rfc3339_instant(b.0)) {
            (Some(x), Some(y)) => if y < x {
                Err(Main::CheckOutBeforeCheckIn)
            } else {
                Ok(EntryView { check_in: x, check_out: y, in_comment: a.1, out_comment: b.1 })
            },
            _ => Err(Main::InvalidTimestamp),
        },
        _ => Err(Main::EntryIncorrectNumberOfTokens),
    }
}

/// The entry that a paragraph of exactly two lines describes.
pub open spec fn entry_of_paragraph(p: Seq<char>) -> Result<EntryView, Main> {
    let ls = sparse_tokens(p, seq!['\n']);
    if ls.len() == 2 {
        entry_of_lines(ls[0], ls[1])
    } else {
        Err(Main::EntryIncorrectNumberOfLines)
    }
}

/// The entries of the paragraphs, or the first paragraph's error.
pub open spec fn entries_of(ps: Seq<Seq<char>>) -> Result<Seq<EntryView>, Main>
    decreases ps.len(),
{
    if ps.len() == 0 {
        Ok(seq![])
    } else {
        match entries_of(ps.drop_last()) {
            Err(e) => Err(e),
            Ok(es) => match entry_of_paragraph(ps.last()) {
                Err(e) => Err(e),
                Ok(x) => Ok(es.push(x)),
            },
        }
    }
}

/// The open session that a single line describes.
pub open spec fn session_of_line(l: Seq<char>) -> Result<SessionView, Main> {
    match stamp_parts(l) {
        Some(a) => match rfc3339_instant(a.0) {
            Some(x) => Ok(SessionView { check_in: x, in_comment: a.1 }),
            None => Err(Main::InvalidTimestamp),
        },
        None => Err(Main::EntryIncorrectNumberOfTokens),
    }
}

/// The ledger that a text describes: paragraphs separated by blank lines;
/// each an entry of two lines, but the last, which may be one line, the
/// open session.
pub open spec fn parse_text(text: Seq<char>) -> Result<RecordView, Main> {
    let ps = sparse_tokens(text, seq!['\n', '\n']);
    if ps.len() == 0 {
        Ok(RecordView { entries: seq![], session: None })
    } else {
        match entries_of(ps.drop_last()) {
            Err(e) => Err(e),
            Ok(es) => {
                let ls = sparse_tokens(ps.last(), seq!['\n']);
                if ls.len() == 2 {
                    match entry_of_lines(ls[0], ls[1]) {
                        Ok(x) => Ok(RecordView { entries: es.push(x), session: None }),
                        Err(e) => Err(e),
                    }
                } else if ls.len() == 1 {
                    match session_of_line(ls[0]) {
                        Ok(s) => Ok(RecordView { entries: es, session: Some(s) }),
                        Err(e) => Err(e),
                    }
                } else {
                    Err(Main::EntryIncorrectNumberOfLines)
                }
            },
        }
    }
}

/// The ledger.
#[derive(Debug)]
pub struct Record {
    entries: Vec<Entry>,
    current_session: Option<Session>,
}

impl View for Record {
    type V = RecordView;

    closed spec fn view(&self) -> RecordView {
        RecordView {
            entries: self.entries@.map_values(|e: Entry| e@),
            session: match self.current_session {
                Some(s) => Some(s@),
                None => None,
            },
        }
    }
}

/// Adds `p`, clipped to the window, to `out` where it touches the window
/// and clips to something.
fn crop_push(out: &mut Vec<DateTimeRange>, p: (i64, i64), start: i64, end: i64)
    ensures
        bounds_of(final(out)@) == if touches(p, start, end) && clip(p, start, end).0 < clip(
            p,
            start,
            end,
        ).1 {
            bounds_of(old(out)@).push(clip(p, start, end))
        } else {
            bounds_of(old(out)@)
        },
{
    let (a, b) = p;
    if (start <= a && a < end) || (start <= b && b < end) {
        let s = if a < start {
            start
        } else {
            a
        };
        let e = if b > end {
            end
        } else {
            b
        };
        if s < e {
            let ghost before = out@;
            match DateTimeRange::new(s, e) {
                Ok(d) => {
                    out.push(d);
                    proof {
                        assert(bounds_of(out@) =~= bounds_of(before).push(clip(p, start, end)));
                    }
                },
                Err(_) => {},
            }
        }
    }
}

/// The sum of `end - start` over ordered pairs; fails where it leaves `i128`.
fn sum_pairs(ps: &Vec<(i64, i64)>) -> (r: Result<i128, Main>)
    requires
        forall|j: int| 0 <= j < ps@.len() ==> (#[trigger] ps@[j]).0 <= ps@[j].1,
    ensures
        span_sum(ps@) >= 0,
        span_sum(ps@) <= i128::MAX ==> r == Ok::<i128, Main>(span_sum(ps@) as i128),
        span_sum(ps@) > i128::MAX ==> r == Err::<i128, Main>(Main::DurationOverflow),
{
    let mut acc: Option<i128> = Some(0);
    let mut k: usize = 0;
    proof {
        assert(ps@.take(0) =~= Seq::<(i64, i64)>::empty());
    }
    while k < ps.len()
        invariant
            k <= ps@.len(),
            forall|j: int| 0 <= j < ps@.len() ==> (#[trigger] ps@[j]).0 <= ps@[j].1,
            span_sum(ps@.take(k as int)) >= 0,
            span_sum(ps@.take(k as int)) <= i128::MAX ==> acc == Some(
                span_sum(ps@.take(k as int)) as i128,
            ),
            span_sum(ps@.take(k as int)) > i128::MAX ==> acc is None,
        decreases ps@.len() - k,
    {
        let (a, b) = ps[k];
        proof {
            assert(ps@.take(k + 1).drop_last() =~= ps@.take(k as int));
            assert(ps@.take(k + 1).last() == ps@[k as int]);
        }
        let s: i128 = b as i128 - a as i128;
        acc = match acc {
            Some(v) => v.checked_add(s),
            None => None,
        };
        k += 1;
    }
    proof {
        assert(ps@.take(ps@.len() as int) =~= ps@);
    }
    match acc {
        Some(v) => Ok(v),
        None => Err(Main::DurationOverflow),
    }
}

/// The time spent on `day`: the ledger cropped to the day's window and
/// summed.
pub open spec fn day_total(r: RecordView, day: int, now: i64, offset: int) -> int {
    let w = day_window(day, offset)->0;
    span_sum(cropped(r, w.0, w.1, now))
}

/// The start of a day's window and its last instant, one nanosecond before
/// the next day starts; `None` where either leaves `i64`.
pub open spec fn day_window(day: int, offset: int) -> Option<(i64, i64)> {
    if in_i64(day_start(day, offset)) && in_i64(day_start(day + 1, offset)) {
        Some((day_start(day, offset) as i64, (day_start(day + 1, offset) - 1) as i64))
    } else {
        None
    }
}

impl Clone for Record {
    fn clone(&self) -> (r: Record)
        ensures
            r@ == self@,
    {
        let mut entries: Vec<Entry> = Vec::new();
        let mut k: usize = 0;
        while k < self.entries.len()
            invariant
                k <= self.entries@.len(),
                entries@.map_values(|e: Entry| e@) == self@.entries.take(k as int),
            decreases self.entries@.len() - k,
        {
            let ghost before = entries@;
            let copy = self.entries[k].clone();
            proof {
                assert(copy@ == self@.entries[k as int]);
            }
            entries.push(copy);
            proof {
                assert(entries@ == before.push(copy));
                assert(entries@.map_values(|e: Entry| e@) =~= before.map_values(|e: Entry| e@).push(
                    copy@,
                ));
                assert(self@.entries.take(k + 1) =~= self@.entries.take(k as int).push(
                    self@.entries[k as int],
                ));
            }
            k += 1;
        }
        proof {
            assert(self@.entries.take(k as int) =~= self@.entries);
        }
        let current_session = match &self.current_session {
            Some(s) => Some(Session { check_in: s.check_in, in_comment: copy_comment(&s.in_comment) }),
            None => None,
        };
        Record { entries, current_session }
    }
}

impl Record {
    /// An empty ledger.
    pub fn new() -> (r: Record)
        ensures
            r@ == (RecordView { entries: seq![], session: None }),
    {
        let r = Record { entries: Vec::new(), current_session: None };
        proof {
            assert(r@.entries =~= Seq::<EntryView>::empty());
        }
        r
    }

    /// Every entry of the ledger checks in no later than it checks out.
    pub fn entries_are_ordered(&self)
        ensures
            entries_ordered(self@),
    {
        let mut k: usize = 0;
        while k < self.entries.len()
            invariant
                k <= self.entries@.len(),
                forall|j: int| 0 <= j < k ==> #[trigger] self@.entries[j].check_in <= self@.entries[j].check_out,
            decreases self.entries@.len() - k,
        {
            let e = &self.entries[k];
            proof {
                use_type_invariant(e);
            }
            k += 1;
        }
    }

    /// The closed entries, oldest first.
    pub fn get_entries(&self) -> (r: &Vec<Entry>)
        ensures
            r@.map_values(|e: Entry| e@) == self@.entries,
    {
        &self.entries
    }

    /// The open session, if any.
    pub fn get_current_session(&self) -> (r: Option<&Session>)
        ensures
            match r {
                Some(s) => self@.session == Some(s@),
                None => self@.session is None,
            },
    {
        self.current_session.as_ref()
    }

    /// The most recent element: the open session, else the last entry.
    pub fn get_latest(&self) -> (r: Latest<'_>)
        ensures
            match r {
                Latest::Current(s) => self@.session == Some(s@),
                Latest::Entry(e) => self@.session is None && self@.entries.len() > 0
                    && e@ == self@.entries.last(),
                Latest::Empty => self@.session is None && self@.entries.len() == 0,
            },
    {
        match &self.current_session {
            Some(s) => Latest::Current(s),
            None => {
                if self.entries.len() == 0 {
                    Latest::Empty
                } else {
                    Latest::Entry(&self.entries[self.entries.len() - 1])
                }
            },
        }
    }

    /// The most recent instant: the open session's check-in, else the last
    /// entry's check-out; `None` for an empty ledger.
    pub fn clone_last_datetime(&self) -> (r: Option<i64>)
        ensures
            r == match self@.session {
                Some(s) => Some(s.check_in),
                None => if self@.entries.len() > 0 {
                    Some(self@.entries.last().check_out)
                } else {
                    None::<i64>
                },
            },
    {
        match &self.current_session {
            Some(s) => Some(s.check_in),
            None => {
                if self.entries.len() == 0 {
                    None
                } else {
                    Some(self.entries[self.entries.len() - 1].get_check_out())
                }
            },
        }
    }

    /// Every item as a pair of instants, the open session running until `until`.
    fn pairs_until(&self, until: i64) -> (r: Vec<(i64, i64)>)
        ensures
            r@ == item_pairs(self@, until),
            forall|j: int| 0 <= j < self@.entries.len() ==> (#[trigger] r@[j]).0 <= r@[j].1,
    {
        let mut r: Vec<(i64, i64)> = Vec::new();
        let mut k: usize = 0;
        while k < self.entries.len()
            invariant
                k <= self.entries@.len(),
                r@ == closed_pairs(self@.entries).take(k as int),
                forall|j: int| 0 <= j < k ==> (#[trigger] r@[j]).0 <= r@[j].1,
            decreases self.entries@.len() - k,
        {
            let e = &self.entries[k];
            proof {
                use_type_invariant(e);
            }
            r.push((e.check_in, e.check_out));
            k += 1;
            proof {
                assert(r@ =~= closed_pairs(self@.entries).take(k as int));
            }
        }
        proof {
            assert(closed_pairs(self@.entries).take(k as int) =~= closed_pairs(self@.entries));
        }
        match &self.current_session {
            Some(s) => r.push((s.check_in, until)),
            None => {},
        }
        r
    }

    /// The ledger cropped to the window from `start` to `end`: each item that
    /// has an end in `[start, end)`, clipped to the window, oldest first; the
    /// open session runs until `now` but not past `end`. Fails unless
    /// `start < end`.
    pub fn try_into_cropped_datetime_ranges(&self, start: i64, end: i64, now: i64) -> (r: Result<
        Vec<DateTimeRange>,
        Main,
    >)
        ensures
            end <= start ==> r == Err::<Vec<DateTimeRange>, Main>(Main::RangeStartPosition),
            start < end ==> (r matches Ok(v) && bounds_of(v@) == cropped(self@, start, end, now)),
    {
        if end <= start {
            return Err(Main::RangeStartPosition);
        }
        let mut out: Vec<DateTimeRange> = Vec::new();
        let mut k: usize = 0;
        proof {
            assert(bounds_of(out@) =~= Seq::<(i64, i64)>::empty());
            assert(closed_pairs(self@.entries).take(0) =~= Seq::<(i64, i64)>::empty());
        }
        while k < self.entries.len()
            invariant
                k <= self.entries@.len(),
                bounds_of(out@) == crop_pairs(closed_pairs(self@.entries).take(k as int), start, end),
            decreases self.entries@.len() - k,
        {
            let e = &self.entries[k];
            proof {
                let ps = closed_pairs(self@.entries).take(k + 1);
                assert(ps.drop_last() =~= closed_pairs(self@.entries).take(k as int));
                assert(ps.last() == (e.check_in, e.check_out));
            }
            crop_push(&mut out, (e.check_in, e.check_out), start, end);
            k += 1;
        }
        proof {
            assert(closed_pairs(self@.entries).take(k as int) =~= closed_pairs(self@.entries));
        }
        match &self.current_session {
            Some(s) => {
                let until = if now < end {
                    now
                } else {
                    end
                };
                proof {
                    let ps = item_pairs(self@, until);
                    assert(ps.drop_last() =~= closed_pairs(self@.entries));
                }
                crop_push(&mut out, (s.check_in, until), start, end);
            },
            None => {},
        }
        Ok(out)
    }

    /// All the time in the ledger, the open session counted until `now`.
    /// Fails where the open session checked in after `now`, or the sum
    /// leaves `i128`.
    pub fn total_time(&self, now: i64) -> (r: Result<i128, Main>)
        ensures
            session_after(self@, now) ==> r == Err::<i128, Main>(Main::CheckOutBeforeCheckIn),
            !session_after(self@, now) && span_sum(item_pairs(self@, now)) <= i128::MAX ==> r
                == Ok::<i128, Main>(span_sum(item_pairs(self@, now)) as i128),
            !session_after(self@, now) && span_sum(item_pairs(self@, now)) > i128::MAX ==> r
                == Err::<i128, Main>(Main::DurationOverflow),
    {
        match &self.current_session {
            Some(s) => {
                if now < s.check_in {
                    return Err(Main::CheckOutBeforeCheckIn);
                }
            },
            None => {},
        }
        let ps = self.pairs_until(now);
        sum_pairs(&ps)
    }

    /// The time spent on `day` (at `offset`): the ledger cropped to the
    /// day's window, from its first instant to one nanosecond before the
    /// next day, and summed. Fails where the window leaves `i64`, or the sum
    /// leaves `i128`.
    pub fn days_time(&self, day: i64, now: i64, offset: i32) -> (r: Result<i128, Main>)
        requires
            valid_offset(offset),
        ensures
            day_window(day as int, offset as int) is None ==> r == Err::<i128, Main>(
                Main::DateOutOfRange,
            ),
            day_window(day as int, offset as int) is Some ==> {
                let total = day_total(self@, day as int, now, offset as int);
                &&& total <= i128::MAX ==> r == Ok::<i128, Main>(total as i128)
                &&& total > i128::MAX ==> r == Err::<i128, Main>(Main::DurationOverflow)
            },
    {
        let start = match day_start_instant(day, offset) {
            Some(t) => t,
            None => {
                return Err(Main::DateOutOfRange);
            },
        };
        proof {
            assert(day < i64::MAX) by (nonlinear_arith)
                requires
                    in_i64(day_start(day as int, offset as int)),
                    -86_400 < offset < 86_400,
            {
            }
        }
        let next = match day_start_instant(day + 1, offset) {
            Some(t) => t,
            None => {
                return Err(Main::DateOutOfRange);
            },
        };
        let end = next - 1;
        match self.try_into_cropped_datetime_ranges(start, end, now) {
            Ok(ranges) => total_span(&ranges),
            Err(e) => Err(e),
        }
    }

    /// How long the open session has run at `now`; `None` without one.
    pub fn current_session_time(&self, now: i64) -> (r: Option<i128>)
        ensures
            r == match self@.session {
                Some(s) => Some((now - s.check_in) as i128),
                None => None::<i128>,
            },
    {
        match &self.current_session {
            Some(s) => Some(now as i128 - s.check_in as i128),
            None => None,
        }
    }

    /// Opens a session at `now`; fails where one is already open.
    pub fn clock_in(&mut self, now: i64, comment: Option<String>) -> (r: Result<i64, Main>)
        ensures
            old(self)@.session is Some ==> r == Err::<i64, Main>(Main::AlreadyClockedIn)
                && final(self)@ == old(self)@,
            old(self)@.session is None ==> r == Ok::<i64, Main>(now) && final(self)@ == (RecordView {
                entries: old(self)@.entries,
                session: Some(SessionView { check_in: now, in_comment: opt_view(comment) }),
            }),
    {
        if self.current_session.is_some() {
            return Err(Main::AlreadyClockedIn);
        }
        self.current_session = Some(Session { check_in: now, in_comment: comment });
        Ok(now)
    }

    /// Closes the open session at `now` into an entry with the check-out
    /// comment, and gives `now` and the session's length. Fails where no
    /// session is open, or it checked in after `now`.
    pub fn clock_out(&mut self, now: i64, comment: Option<String>) -> (r: Result<(i64, i128), Main>)
        ensures
            old(self)@.session is None ==> r == Err::<(i64, i128), Main>(Main::NotClockedIn)
                && final(self)@ == old(self)@,
            session_after(old(self)@, now) ==> r == Err::<(i64, i128), Main>(
                Main::CheckOutBeforeCheckIn,
            ) && final(self)@ == old(self)@,
            match old(self)@.session {
                Some(s) => s.check_in <= now ==> r == Ok::<(i64, i128), Main>(
                    (now, (now - s.check_in) as i128),
                ) && final(self)@ == (RecordView {
                    entries: old(self)@.entries.push(
                        EntryView {
                            check_in: s.check_in,
                            check_out: now,
                            in_comment: s.in_comment,
                            out_comment: opt_view(comment),
                        },
                    ),
                    session: None,
                }),
                None => true,
            },
    {
        match &self.current_session {
            None => {
                return Err(Main::NotClockedIn);
            },
            Some(s) => {
                if now < s.check_in {
                    return Err(Main::CheckOutBeforeCheckIn);
                }
            },
        }
        let s = self.current_session.take().unwrap();
        let check_in = s.check_in;
        let entry = Entry { check_in, check_out: now, in_comment: s.in_comment, out_comment: comment };
        self.entries.push(entry);
        proof {
            assert(self@.entries =~= old(self)@.entries.push(entry@));
        }
        Ok((now, now as i128 - check_in as i128))
    }

    /// Takes back the most recent timestamp. An open session is removed
    /// whole, giving its check-in and comment; otherwise the last entry
    /// loses its check-out, giving that and the check-out comment, and
    /// becomes the open session with its check-in comment. `None` for an
    /// empty ledger.
    pub fn pop(&mut self) -> (r: Option<(i64, Option<String>)>)
        ensures
            old(self)@.session matches Some(s) ==> (r matches Some(p) && p.0 == s.check_in
                && opt_view(p.1) == s.in_comment) && final(self)@ == (RecordView {
                entries: old(self)@.entries,
                session: None,
            }),
            old(self)@.session is None && old(self)@.entries.len() == 0 ==> r is None
                && final(self)@ == old(self)@,
            old(self)@.session is None && old(self)@.entries.len() > 0 ==> ({
                let e = old(self)@.entries.last();
                &&& r matches Some(p) && p.0 == e.check_out && opt_view(p.1) == e.out_comment
                &&& final(self)@ == (RecordView {
                    entries: old(self)@.entries.drop_last(),
                    session: Some(SessionView { check_in: e.check_in, in_comment: e.in_comment }),
                })
            }),
    {
        match self.current_session.take() {
            Some(s) => Some((s.check_in, s.in_comment)),
            None => {
                match self.entries.pop() {
                    Some(entry) => {
                        proof {
                            assert(self@.entries =~= old(self)@.entries.drop_last());
                        }
                        let Entry { check_in, check_out, in_comment, out_comment } = entry;
                        self.current_session = Some(Session { check_in, in_comment });
                        Some((check_out, out_comment))
                    },
                    None => None,
                }
            },
        }
    }

    /// The items, oldest first: the entries, then the open session.
    pub fn into_items(self) -> (r: Vec<Item>)
        ensures
            r@.len() == self@.entries.len() + if self@.session is Some {
                1int
            } else {
                0
            },
            forall|i: int|
                0 <= i < self@.entries.len() ==> (#[trigger] r@[i] matches Item::Entry(e) && e@
                    == self@.entries[i]),
            self@.session matches Some(s) ==> (r@.last() matches Item::CurrentSession(t, c) && t
                == s.check_in && opt_view(c) == s.in_comment),
    {
        let Record { entries, current_session } = self;
        let ghost es = entries@;
        let mut r: Vec<Item> = Vec::new();
        let mut rest = entries;
        let mut k: usize = 0;
        let n = rest.len();
        proof {
            assert(rest@.skip(0) =~= rest@);
        }
        while rest.len() > 0
            invariant
                rest@ == es.skip(k as int),
                k + rest@.len() == n,
                n == es.len(),
                r@.len() == k,
                forall|i: int| 0 <= i < k ==> (#[trigger] r@[i] matches Item::Entry(e) && e@ == es[i]@),
            decreases rest@.len(),
        {
            let e = rest.remove(0);
            r.push(Item::Entry(e));
            proof {
                assert(rest@ =~= es.skip(k + 1));
            }
            k += 1;
        }
        match current_session {
            Some(s) => r.push(Item::CurrentSession(s.check_in, s.in_comment)),
            None => {},
        }
        r
    }

    /// The time spent today (the day of `now` at `offset`): going back from
    /// the newest item while items end today, the oldest of them counted
    /// from the start of today where it began earlier; the open session runs
    /// until `now`. Fails where the open session checked in after `now`, or
    /// the sum leaves `i128`.
    pub fn todays_time(&self, now: i64, offset: i32) -> (r: Result<i128, Main>)
        requires
            valid_offset(offset),
        ensures
            session_after(self@, now) ==> r == Err::<i128, Main>(Main::CheckOutBeforeCheckIn),
            ({
                let total = todays_sum(
                    item_pairs(self@, now),
                    local_day(now as int, offset as int),
                    offset as int,
                );
                &&& !session_after(self@, now) && total <= i128::MAX ==> r == Ok::<i128, Main>(
                    total as i128,
                )
                &&& !session_after(self@, now) && total > i128::MAX ==> r == Err::<i128, Main>(
                    Main::DurationOverflow,
                )
            }),
    {
        match &self.current_session {
            Some(s) => {
                if now < s.check_in {
                    return Err(Main::CheckOutBeforeCheckIn);
                }
            },
            None => {},
        }
        let ps = self.pairs_until(now);
        let ghost o = offset as int;
        proof {
            assert forall|j: int| 0 <= j < ps@.len() implies (#[trigger] ps@[j]).0 <= ps@[j].1 by {
                if j >= self@.entries.len() {
                    assert(ps@[j] == (self@.session->0.check_in, now));
                }
            }
        }
        let today = day_of(now, offset);
        let n = ps.len();
        let k = today_suffix(&ps, today, offset);
        if k == 0 {
            return Ok(0);
        }
        let (a, b) = ps[n - k];
        let begin: i128 = if day_of(a, offset) == today {
            a as i128
        } else {
            today as i128 * crate::time::NANOS_PER_DAY - offset as i128 * crate::time::NANOS_PER_SEC
        };
        proof {
            let x = b as int + o * 1_000_000_000;
            vstd::arithmetic::div_mod::lemma_fundamental_div_mod(x, 86_400_000_000_000);
            assert(local_day(b as int, o) == today);
            assert(begin <= b);
            let kept = ps@.skip(n - k);
            assert(kept[0] == ps@[n - k]);
            assert(kept.drop_first() =~= ps@.subrange(n - k + 1, n as int));
        }
        sum_from(&ps, n - k + 1, b as i128 - begin)
    }

    /// The ledger as text: a paragraph of two lines for each entry, followed
    /// by a blank line, then a line for the open session. Each line is an
    /// RFC 3339 timestamp in UTC padded to 32 characters, then a space and
    /// the comment if there is one.
    pub fn serialize(&self) -> (r: String)
        ensures
            r@ == record_text(self@),
            stamps_read_back(self@),
    {
        let mut out: Vec<char> = Vec::new();
        let mut k: usize = 0;
        proof {
            assert(self@.entries.take(0) =~= Seq::<EntryView>::empty());
            assert(out@ =~= entries_text(self@.entries.take(0)));
        }
        while k < self.entries.len()
            invariant
                k <= self.entries@.len(),
                out@ == entries_text(self@.entries.take(k as int)),
                forall|j: int|
                    0 <= j < k ==> stamp_reads_back((#[trigger] self@.entries[j]).check_in)
                        && stamp_reads_back(self@.entries[j].check_out),
            decreases self.entries@.len() - k,
        {
            let e = &self.entries[k];
            let ghost before = out@;
            push_stamp_line(&mut out, e.check_in, &e.in_comment);
            out.push('\n');
            push_stamp_line(&mut out, e.check_out, &e.out_comment);
            out.push('\n');
            out.push('\n');
            proof {
                let es = self@.entries.take(k + 1);
                assert(es.drop_last() =~= self@.entries.take(k as int));
                assert(es.last() == e@);
                assert(out@ =~= before + entry_text(e@));
            }
            k += 1;
        }
        proof {
            assert(self@.entries.take(k as int) =~= self@.entries);
        }
        match &self.current_session {
            Some(s) => {
                push_stamp_line(&mut out, s.check_in, &s.in_comment);
                out.push('\n');
            },
            None => {},
        }
        proof {
            assert(out@ =~= record_text(self@));
        }
        string_of(&out)
    }

    /// Reads a ledger from its text: paragraphs separated by blank lines,
    /// white space around lines and tokens ignored, empty paragraphs skipped.
    /// Every paragraph is an entry of two lines, but the last, which may
    /// instead be one line: the open session.
    pub fn parse(text: &str) -> (r: Result<Record, Main>)
        ensures
            match r {
                Ok(rec) => parse_text(text@) == Ok::<RecordView, Main>(rec@),
                Err(e) => parse_text(text@) == Err::<RecordView, Main>(e),
            },
    {
        let chars = chars_of(text);
        let mut sep: Vec<char> = Vec::new();
        sep.push('\n');
        sep.push('\n');
        proof {
            assert(sep@ =~= seq!['\n', '\n']);
        }
        let paras = sparse_split(&chars, &sep);
        let ghost ps = seqs_of(paras@);
        if paras.len() == 0 {
            let r = Record::new();
            return Ok(r);
        }
        let last = paras.len() - 1;
        let mut entries: Vec<Entry> = Vec::new();
        let mut k: usize = 0;
        proof {
            assert(ps.take(0) =~= Seq::<Seq<char>>::empty());
            assert(entries@.map_values(|e: Entry| e@) =~= Seq::<EntryView>::empty());
        }
        while k < last
            invariant
                k <= last,
                last + 1 == paras@.len(),
                ps == seqs_of(paras@),
                ps == sparse_tokens(text@, seq!['\n', '\n']),
                entries_of(ps.take(k as int)) == Ok::<Seq<EntryView>, Main>(
                    entries@.map_values(|e: Entry| e@),
                ),
            decreases last - k,
        {
            proof {
                let t = ps.take(k + 1);
                assert(t.drop_last() =~= ps.take(k as int));
                assert(t.last() == paras@[k as int]@);
            }
            match entry_from_paragraph(&paras[k]) {
                Ok(e) => {
                    let ghost before = entries@;
                    entries.push(e);
                    proof {
                        assert(entries@.map_values(|e: Entry| e@) =~= before.map_values(
                            |e: Entry| e@,
                        ).push(e@));
                    }
                },
                Err(x) => {
                    proof {
                        assert(ps.drop_last().take(k + 1) =~= ps.take(k + 1));
                        assert(entries_of(ps.take(k + 1)) == Err::<Seq<EntryView>, Main>(x));
                        lemma_entries_of_error(ps.drop_last(), k + 1);
                    }
                    return Err(x);
                },
            }
            k += 1;
        }
        proof {
            assert(ps.take(last as int) =~= ps.drop_last());
            assert(ps.last() == paras@[last as int]@);
        }
        let mut nl: Vec<char> = Vec::new();
        nl.push('\n');
        proof {
            assert(nl@ =~= seq!['\n']);
        }
        let lines = sparse_split(&paras[last], &nl);
        if lines.len() == 2 {
            let e = entry_from_lines(&lines[0], &lines[1]);
            match e {
                Ok(e) => {
                    let ghost before = entries@;
                    entries.push(e);
                    let r = Record { entries, current_session: None };
                    proof {
                        assert(r@.entries =~= before.map_values(|e: Entry| e@).push(e@));
                    }
                    Ok(r)
                },
                Err(x) => Err(x),
            }
        } else if lines.len() == 1 {
            match session_from_line(&lines[0]) {
                Ok(s) => Ok(Record { entries, current_session: Some(s) }),
                Err(x) => Err(x),
            }
        } else {
            Err(Main::EntryIncorrectNumberOfLines)
        }
    }
}

/// How many of the last pairs end on day `today`.
fn today_suffix(ps: &Vec<(i64, i64)>, today: i64, offset: i32) -> (k: usize)
    requires
        valid_offset(offset),
    ensures
        k == today_count(ps@, today as int, offset as int),
        k <= ps@.len(),
        forall|i: int|
            ps@.len() - k <= i < ps@.len() ==> local_day((#[trigger] ps@[i]).1 as int, offset as int)
                == today,
{
    let n = ps.len();
    let mut k: usize = 0;
    proof {
        assert(ps@.take(n as int) =~= ps@);
    }
    while k < n && day_of(ps[n - 1 - k].1, offset) == today
        invariant
            k <= n,
            n == ps@.len(),
            valid_offset(offset),
            today_count(ps@, today as int, offset as int) == k + today_count(
                ps@.take(n - k),
                today as int,
                offset as int,
            ),
            forall|i: int|
                n - k <= i < n ==> local_day((#[trigger] ps@[i]).1 as int, offset as int) == today,
        decreases n - k,
    {
        proof {
            let t = ps@.take(n - k);
            assert(t.drop_last() =~= ps@.take(n - k - 1));
            assert(t.last() == ps@[n - 1 - k]);
        }
        k += 1;
    }
    proof {
        if k < n {
            assert(ps@.take(n - k).last() == ps@[n - 1 - k]);
        } else {
            assert(ps@.take(0) =~= Seq::<(i64, i64)>::empty());
        }
    }
    k
}

/// `first` plus the sum of `end - start` over the pairs from `lo` on;
/// fails where it leaves `i128`.
fn sum_from(ps: &Vec<(i64, i64)>, lo: usize, first: i128) -> (r: Result<i128, Main>)
    requires
        lo <= ps@.len(),
        first >= 0,
        forall|i: int| 0 <= i < ps@.len() ==> (#[trigger] ps@[i]).0 <= ps@[i].1,
    ensures
        ({
            let total = first + span_sum(ps@.subrange(lo as int, ps@.len() as int));
            &&& total <= i128::MAX ==> r == Ok::<i128, Main>(total as i128)
            &&& total > i128::MAX ==> r == Err::<i128, Main>(Main::DurationOverflow)
        }),
{
    let n = ps.len();
    let mut acc: Option<i128> = Some(first);
    let mut j: usize = lo;
    proof {
        assert(ps@.subrange(lo as int, lo as int) =~= Seq::<(i64, i64)>::empty());
    }
    while j < n
        invariant
            lo <= j <= n,
            n == ps@.len(),
            forall|i: int| 0 <= i < ps@.len() ==> (#[trigger] ps@[i]).0 <= ps@[i].1,
            first >= 0,
            span_sum(ps@.subrange(lo as int, j as int)) >= 0,
            first + span_sum(ps@.subrange(lo as int, j as int)) <= i128::MAX ==> acc == Some(
                (first + span_sum(ps@.subrange(lo as int, j as int))) as i128,
            ),
            first + span_sum(ps@.subrange(lo as int, j as int)) > i128::MAX ==> acc is None,
        decreases n - j,
    {
        let (c, d) = ps[j];
        proof {
            let t = ps@.subrange(lo as int, j + 1);
            assert(t.drop_last() =~= ps@.subrange(lo as int, j as int));
            assert(t.last() == ps@[j as int]);
        }
        let s: i128 = d as i128 - c as i128;
        acc = match acc {
            Some(v) => v.checked_add(s),
            None => None,
        };
        j += 1;
    }
    match acc {
        Some(v) => Ok(v),
        None => Err(Main::DurationOverflow),
    }
}

/// Every cropped pair is non-empty and lies within the window.
pub proof fn lemma_crop_within(ps: Seq<(i64, i64)>, start: i64, end: i64)
    ensures
        forall|j: int|
            0 <= j < crop_pairs(ps, start, end).len() ==> start <= (#[trigger] crop_pairs(
                ps,
                start,
                end,
            )[j]).0 < crop_pairs(ps, start, end)[j].1 <= end,
        span_sum(crop_pairs(ps, start, end)) >= 0,
    decreases ps.len(),
{
    if ps.len() > 0 {
        lemma_crop_within(ps.drop_last(), start, end);
        let rest = crop_pairs(ps.drop_last(), start, end);
        let c = clip(ps.last(), start, end);
        if touches(ps.last(), start, end) && c.0 < c.1 {
            assert(crop_pairs(ps, start, end) == rest.push(c));
            assert(rest.push(c).drop_last() =~= rest);
        } else {
            assert(crop_pairs(ps, start, end) == rest);
        }
    }
}

/// Pairs that are non-empty and lie within the window crop to themselves.
proof fn lemma_crop_of_within(ps: Seq<(i64, i64)>, start: i64, end: i64)
    requires
        forall|j: int| 0 <= j < ps.len() ==> start <= (#[trigger] ps[j]).0 < ps[j].1 <= end,
    ensures
        crop_pairs(ps, start, end) == ps,
    decreases ps.len(),
{
    if ps.len() > 0 {
        lemma_crop_of_within(ps.drop_last(), start, end);
        assert(ps.drop_last().push(ps.last()) =~= ps);
    }
}

/// Cropping to a window keeps every range non-empty and within the window
/// (from `start` up to `end` at most), and cropping the cropped ranges to
/// the same window again changes nothing.
pub proof fn lemma_crop_contained_and_idempotent(r: RecordView, start: i64, end: i64, now: i64)
    requires
        start < end,
    ensures
        forall|j: int|
            0 <= j < cropped(r, start, end, now).len() ==> start <= (#[trigger] cropped(
                r,
                start,
                end,
                now,
            )[j]).0 < cropped(r, start, end, now)[j].1 <= end,
        crop_pairs(cropped(r, start, end, now), start, end) == cropped(r, start, end, now),
{
    lemma_crop_within(item_pairs(r, earlier(now, end)), start, end);
    lemma_crop_of_within(cropped(r, start, end, now), start, end);
}

/// Once a prefix of the paragraphs fails, the whole fails the same way.
proof fn lemma_entries_of_error(ps: Seq<Seq<char>>, j: int)
    requires
        0 <= j <= ps.len(),
        entries_of(ps.take(j)) is Err,
    ensures
        entries_of(ps) == entries_of(ps.take(j)),
    decreases ps.len(),
{
    if j == ps.len() {
        assert(ps.take(j) =~= ps);
    } else {
        assert(ps.drop_last().take(j) =~= ps.take(j));
        lemma_entries_of_error(ps.drop_last(), j);
    }
}

/// Appends the characters of `v`.
fn push_chars(out: &mut Vec<char>, v: &Vec<char>)
    ensures
        final(out)@ == old(out)@ + v@,
{
    let mut i: usize = 0;
    let ghost start = out@;
    while i < v.len()
        invariant
            i <= v@.len(),
            out@ == start + v@.take(i as int),
        decreases v@.len() - i,
    {
        out.push(v[i]);
        i += 1;
        proof {
            assert(out@ =~= start + v@.take(i as int));
        }
    }
    proof {
        assert(v@.take(v@.len() as int) =~= v@);
    }
}

/// Appends a ledger line: the padded timestamp and the comment.
fn push_stamp_line(out: &mut Vec<char>, t: i64, c: &Option<String>)
    ensures
        final(out)@ == old(out)@ + stamp_line(t, opt_view(*c)),
        stamp_reads_back(t),
{
    let ghost start = out@;
    let text = instant_text(t);
    let tc = chars_of(text.as_str());
    push_chars(out, &tc);
    let mut w: usize = tc.len();
    while w < 32
        invariant
            tc@.len() <= w <= 32 || (tc@.len() == w && w >= 32),
            tc@ == rfc3339_text(t),
            out@ == start + tc@ + Seq::new((w - tc@.len()) as nat, |i: int| ' '),
        decreases 32 - w,
    {
        out.push(' ');
        w += 1;
        proof {
            assert(out@ =~= start + tc@ + Seq::new((w - tc@.len()) as nat, |i: int| ' '));
        }
    }
    proof {
        if tc@.len() >= 32 {
            assert(out@ =~= start + padded(rfc3339_text(t)));
        } else {
            assert(out@ =~= start + padded(rfc3339_text(t)));
        }
    }
    match c {
        Some(s) => {
            out.push(' ');
            let sc = chars_of(s.as_str());
            push_chars(out, &sc);
        },
        None => {},
    }
    proof {
        assert(final(out)@ =~= start + stamp_line(t, opt_view(*c)));
    }
}

/// The timestamp token of a line and the comment after it.
fn stamp_tokens(line: &Vec<char>) -> (r: Option<(String, Option<String>)>)
    ensures
        match r {
            Some(p) => stamp_parts(line@) == Some((p.0@, opt_view(p.1))),
            None => stamp_parts(line@) is None,
        },
{
    let mut sep: Vec<char> = Vec::new();
    sep.push(' ');
    proof {
        assert(sep@ =~= seq![' ']);
    }
    let toks = sparse_split(line, &sep);
    if toks.len() == 0 {
        return None;
    }
    let stamp = string_of(&toks[0]);
    if toks.len() == 1 {
        Some((stamp, None))
    } else {
        let c = join_with_spaces(&toks, 1);
        Some((stamp, Some(string_of(&c))))
    }
}

/// The entry that a check-in line and a check-out line describe.
fn entry_from_lines(l1: &Vec<char>, l2: &Vec<char>) -> (r: Result<Entry, Main>)
    ensures
        match r {
            Ok(e) => entry_of_lines(l1@, l2@) == Ok::<EntryView, Main>(e@),
            Err(x) => entry_of_lines(l1@, l2@) == Err::<EntryView, Main>(x),
        },
{
    let (a, c1) = match stamp_tokens(l1) {
        Some(p) => p,
        None => {
            return Err(Main::EntryIncorrectNumberOfTokens);
        },
    };
    let (b, c2) = match stamp_tokens(l2) {
        Some(p) => p,
        None => {
            return Err(Main::EntryIncorrectNumberOfTokens);
        },
    };
    let x = match parse_instant(a.as_str()) {
        Some(x) => x,
        None => {
            return Err(Main::InvalidTimestamp);
        },
    };
    let y = match parse_instant(b.as_str()) {
        Some(y) => y,
        None => {
            return Err(Main::InvalidTimestamp);
        },
    };
    Entry::try_new(x, y, c1, c2)
}

/// The entry that a paragraph of exactly two lines describes.
fn entry_from_paragraph(p: &Vec<char>) -> (r: Result<Entry, Main>)
    ensures
        match r {
            Ok(e) => entry_of_paragraph(p@) == Ok::<EntryView, Main>(e@),
            Err(x) => entry_of_paragraph(p@) == Err::<EntryView, Main>(x),
        },
{
    let mut nl: Vec<char> = Vec::new();
    nl.push('\n');
    proof {
        assert(nl@ =~= seq!['\n']);
    }
    let lines = sparse_split(p, &nl);
    if lines.len() != 2 {
        return Err(Main::EntryIncorrectNumberOfLines);
    }
    entry_from_lines(&lines[0], &lines[1])
}

/// The open session that a single line describes.
fn session_from_line(l: &Vec<char>) -> (r: Result<Session, Main>)
    ensures
        match r {
            Ok(s) => session_of_line(l@) == Ok::<SessionView, Main>(s@),
            Err(x) => session_of_line(l@) == Err::<SessionView, Main>(x),
        },
{
    let (a, c) = match stamp_tokens(l) {
        Some(p) => p,
        None => {
            return Err(Main::EntryIncorrectNumberOfTokens);
        },
    };
    match parse_instant(a.as_str()) {
        Some(x) => Ok(Session { check_in: x, in_comment: c }),
        None => Err(Main::InvalidTimestamp),
    }
}

} // verus!
