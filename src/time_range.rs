//! A day view: a window split into equal slots, each classified by the
//! ledger items that touch it.
use vstd::prelude::*;
use crate::error::Main;
use crate::record::{
    copy_comment, opt_view, Entry, EntryView, Record, RecordView, Session, SessionView,
};
use crate::text::{chars_of, string_of};
use crate::cli::{slots_per_hour, DayResolution};
use crate::range::{span_sum, total_span};
use crate::record::cropped;
use crate::time::{day_start, day_start_instant, in_i64, decimal, decimal_chars, format_instant, formatted_instant, push_str, valid_offset};

verus! {

/// What a slot holds.
#[derive(Debug, PartialEq, Eq)]
pub enum Info {
    /// No item touches the slot.
    Empty,
    /// An item runs through the slot.
    SessionSpan,
    /// An item starts in the slot: its check-in and comment.
    SessionStart(i64, Option<String>),
    /// An item ends in the slot: its check-out and comment.
    SessionEnd(i64, Option<String>),
    /// An item starts and ends in the slot: check-in, check-out and both comments.
    SessionWhole(i64, i64, Option<String>, Option<String>),
    /// Several items touch the slot: how many, held at `u32::MAX`.
    Multi(u32),
}

/// What a slot holds, as plain values.
pub enum InfoView {
    Empty,
    SessionSpan,
    SessionStart(i64, Option<Seq<char>>),
    SessionEnd(i64, Option<Seq<char>>),
    SessionWhole(i64, i64, Option<Seq<char>>, Option<Seq<char>>),
    Multi(u32),
}

impl View for Info {
    type V = InfoView;

    open spec fn view(&self) -> InfoView {
        match self {
            Info::Empty => InfoView::Empty,
            Info::SessionSpan => InfoView::SessionSpan,
            Info::SessionStart(t, c) => InfoView::SessionStart(*t, opt_view(*c)),
            Info::SessionEnd(t, c) => InfoView::SessionEnd(*t, opt_view(*c)),
            Info::SessionWhole(a, b, c, d) => InfoView::SessionWhole(*a, *b, opt_view(*c), opt_view(*d)),
            Info::Multi(n) => InfoView::Multi(*n),
        }
    }
}

/// One slot: the instant it begins at, and what it holds.
#[derive(Debug, PartialEq, Eq)]
pub struct Line {
    pub date: i64,
    pub info: Info,
}

/// The slots of a window, oldest first, and the UTC offset (seconds east)
/// at which their instants are shown.
#[derive(Debug)]
pub struct TimeRange {
    lines: Vec<Line>,
    offset: i32,
}

/// `n + 1`, held at `u32::MAX`.
pub open spec fn bumped(n: u32) -> u32 {
    if n < u32::MAX {
        (n + 1) as u32
    } else {
        n
    }
}

/// The layout of the slots: the window's start and the slots' width.
pub struct Grid {
    pub start: int,
    pub slice: int,
    pub count: int,
}

/// The slots of the window from `start` to `end`, `resolution` of them:
/// each `(end - start) / resolution` long, rounded down.
pub open spec fn grid_of(start: i64, end: i64, resolution: u16) -> Grid {
    Grid { start: start as int, slice: (end - start) / (resolution as int), count: resolution as int }
}

/// The instant slot `i` begins at.
pub open spec fn point(g: Grid, i: int) -> int {
    g.start + g.slice * i
}

/// Whether an item from `a` to `b` touches slot `i`: the slot begins
/// before `b`, and `a` comes before the slot ends.
pub open spec fn touched(g: Grid, a: int, b: int, i: int) -> bool {
    point(g, i) < b && a < point(g, i) + g.slice
}

/// Whether the item touches a slot below `i`.
pub open spec fn touched_below(g: Grid, a: int, b: int, i: int) -> bool
    decreases i,
{
    if i <= 0 {
        false
    } else {
        touched(g, a, b, i - 1) || touched_below(g, a, b, i - 1)
    }
}

/// The highest slot below `n` that the item touches, or -1.
pub open spec fn last_touched(g: Grid, a: int, b: int, n: int) -> int
    decreases n,
{
    if n <= 0 {
        -1
    } else if touched(g, a, b, n - 1) {
        n - 1
    } else {
        last_touched(g, a, b, n - 1)
    }
}

/// A slot touched by a closed item: the first slot it touches gets its
/// start, the others its span; a slot that one earlier item classified now
/// holds two (`Multi(2)`), and `Multi(n)` one more.
pub open spec fn touch(info: InfoView, later: bool, a: i64, c: Option<Seq<char>>) -> InfoView {
    match info {
        InfoView::Empty => if later {
            InfoView::SessionSpan
        } else {
            InfoView::SessionStart(a, c)
        },
        InfoView::SessionSpan => InfoView::Multi(2),
        InfoView::SessionStart(_, _) => InfoView::Multi(2),
        InfoView::SessionEnd(_, _) => InfoView::Multi(2),
        InfoView::SessionWhole(_, _, _, _) => InfoView::Multi(2),
        InfoView::Multi(n) => InfoView::Multi(bumped(n)),
    }
}

/// The last slot a closed item touches gets its end: a span becomes its
/// end, its own start becomes the whole item; a `Multi` slot already
/// counts the item.
pub open spec fn finish(info: InfoView, b: i64, c: Option<Seq<char>>) -> InfoView {
    match info {
        InfoView::SessionSpan => InfoView::SessionEnd(b, c),
        InfoView::SessionStart(a, ac) => InfoView::SessionWhole(a, b, ac, c),
        _ => info,
    }
}

/// The slots after a closed entry has been laid over them; an entry
/// outside the window `[start, end]` changes nothing.
pub open spec fn lay_entry(t: Seq<InfoView>, g: Grid, end: int, e: EntryView) -> Seq<InfoView> {
    if e.check_out < g.start || e.check_in > end {
        t
    } else {
        let a = e.check_in as int;
        let b = e.check_out as int;
        let u = Seq::new(
            t.len(),
            |i: int|
                if touched(g, a, b, i) {
                    touch(t[i], touched_below(g, a, b, i), e.check_in, e.in_comment)
                } else {
                    t[i]
                },
        );
        let l = last_touched(g, a, b, t.len() as int);
        if l >= 0 {
            u.update(l, finish(u[l], e.check_out, e.out_comment))
        } else {
            u
        }
    }
}

/// The slots after the entries have been laid over them, in order.
pub open spec fn lay_entries(t: Seq<InfoView>, g: Grid, end: int, es: Seq<EntryView>) -> Seq<
    InfoView,
>
    decreases es.len(),
{
    if es.len() == 0 {
        t
    } else {
        lay_entry(lay_entries(t, g, end, es.drop_last()), g, end, es.last())
    }
}

/// Whether the open session, running until `now`, touches a slot that is
/// not empty.
pub open spec fn session_collides(t: Seq<InfoView>, g: Grid, s: SessionView, now: int) -> bool {
    exists|i: int|
        0 <= i < t.len() && touched(g, s.check_in as int, now, i) && !(t[i] is Empty)
}

/// The slots after the open session, running until `now`, has been laid
/// over empty slots: the first it touches gets its start, the others its span.
pub open spec fn lay_session(t: Seq<InfoView>, g: Grid, s: SessionView, now: int) -> Seq<InfoView> {
    Seq::new(
        t.len(),
        |i: int|
            if touched(g, s.check_in as int, now, i) {
                if touched_below(g, s.check_in as int, now, i) {
                    InfoView::SessionSpan
                } else {
                    InfoView::SessionStart(s.check_in, s.in_comment)
                }
            } else {
                t[i]
            },
    )
}

/// The slots of the closed entries alone.
pub open spec fn entry_slots(r: RecordView, g: Grid, end: int) -> Seq<InfoView> {
    lay_entries(Seq::new(g.count as nat, |i: int| InfoView::Empty), g, end, r.entries)
}

/// Whether the open session runs into a slot that an entry classified.
pub open spec fn table_fails(r: RecordView, g: Grid, end: int, now: int) -> bool {
    r.session matches Some(s) && session_collides(entry_slots(r, g, end), g, s, now)
}

/// The classification of every slot.
pub open spec fn table(r: RecordView, g: Grid, end: int, now: int) -> Seq<InfoView> {
    match r.session {
        Some(s) => lay_session(entry_slots(r, g, end), g, s, now),
        None => entry_slots(r, g, end),
    }
}

/// What the slots hold, as plain values.
pub open spec fn infos_view(v: Seq<Info>) -> Seq<InfoView> {
    v.map_values(|x: Info| x@)
}

impl View for TimeRange {
    type V = Seq<(i64, InfoView)>;

    closed spec fn view(&self) -> Seq<(i64, InfoView)> {
        self.lines@.map_values(|l: Line| (l.date, l.info@))
    }
}

/// The last touched slot below `n` lies below `n`.
proof fn lemma_last_touched_below(g: Grid, a: int, b: int, n: int)
    requires
        n >= 0,
    ensures
        last_touched(g, a, b, n) < n,
        last_touched(g, a, b, n) >= -1,
    decreases n,
{
    if n > 0 {
        lemma_last_touched_below(g, a, b, n - 1);
    }
}

/// A slot touched by a closed item.
fn touch_info(info: &Info, later: bool, a: i64, c: &Option<String>) -> (r: Info)
    ensures
        r@ == touch(info@, later, a, opt_view(*c)),
{
    match info {
        Info::Empty => if later {
            Info::SessionSpan
        } else {
            Info::SessionStart(a, copy_comment(c))
        },
        Info::SessionSpan => Info::Multi(2),
        Info::SessionStart(_, _) => Info::Multi(2),
        Info::SessionEnd(_, _) => Info::Multi(2),
        Info::SessionWhole(_, _, _, _) => Info::Multi(2),
        Info::Multi(n) => Info::Multi(
            if *n < u32::MAX {
                *n + 1
            } else {
                *n
            },
        ),
    }
}

/// The last slot that a closed item touches.
fn finish_info(info: &Info, b: i64, c: &Option<String>) -> (r: Info)
    ensures
        r@ == finish(info@, b, opt_view(*c)),
{
    match info {
        Info::SessionSpan => Info::SessionEnd(b, copy_comment(c)),
        Info::SessionStart(a, ac) => Info::SessionWhole(*a, b, copy_comment(ac), copy_comment(c)),
        Info::Multi(n) => Info::Multi(*n),
        Info::Empty => Info::Empty,
        Info::SessionEnd(t, tc) => Info::SessionEnd(*t, copy_comment(tc)),
        Info::SessionWhole(x, y, xc, yc) => Info::SessionWhole(
            *x,
            *y,
            copy_comment(xc),
            copy_comment(yc),
        ),
    }
}

/// Whether an item from `a` to `b` touches slot `i` of the grid.
fn touches_slot(start: i64, slice: i128, i: usize, a: i64, b: i128) -> (r: bool)
    requires
        0 <= slice < 0x1_0000_0000_0000_0000,
        i <= 0x1_0000,
    ensures
        r == touched(Grid { start: start as int, slice: slice as int, count: 0 }, a as int, b as int, i as int),
{
    proof {
        assert(slice * i <= 0x1_0000_0000_0000_0000 * 0x1_0000) by (nonlinear_arith)
            requires
                0 <= slice < 0x1_0000_0000_0000_0000,
                i <= 0x1_0000,
        ;
    }
    let p: i128 = start as i128 + slice * i as i128;
    p < b && (a as i128) < p + slice
}

/// Lays a closed entry over the slots.
fn lay_entry_exec(infos: &mut Vec<Info>, start: i64, slice: i128, end: i64, e: &Entry)
    requires
        0 <= slice < 0x1_0000_0000_0000_0000,
        old(infos)@.len() <= 0x1_0000,
    ensures
        final(infos)@.len() == old(infos)@.len(),
        infos_view(final(infos)@) == lay_entry(
            infos_view(old(infos)@),
            Grid { start: start as int, slice: slice as int, count: old(infos)@.len() as int },
            end as int,
            e@,
        ),
{
    let ghost g = Grid { start: start as int, slice: slice as int, count: old(infos)@.len() as int };
    let ghost t0 = infos_view(infos@);
    let a = e.check_in();
    let b = e.get_check_out();
    if b < start || a > end {
        return;
    }
    let n = infos.len();
    let mut later = false;
    let mut last: usize = n;
    let mut i: usize = 0;
    while i < n
        invariant
            i <= n,
            n == infos@.len(),
            n <= 0x1_0000,
            0 <= slice < 0x1_0000_0000_0000_0000,
            g == (Grid { start: start as int, slice: slice as int, count: n as int }),
            t0.len() == n,
            a == e@.check_in,
            b == e@.check_out,
            forall|j: int|
                0 <= j < i ==> infos_view(infos@)[j] == if touched(g, a as int, b as int, j) {
                    touch(t0[j], touched_below(g, a as int, b as int, j), a, e@.in_comment)
                } else {
                    t0[j]
                },
            forall|j: int| i <= j < n ==> infos_view(infos@)[j] == t0[j],
            later == touched_below(g, a as int, b as int, i as int),
            last == if last_touched(g, a as int, b as int, i as int) >= 0 {
                last_touched(g, a as int, b as int, i as int)
            } else {
                n as int
            },
        decreases n - i,
    {
        let ghost before = infos@;
        if touches_slot(start, slice, i, a, b as i128) {
            let ni = touch_info(&infos[i], later, a, e.in_comment());
            infos.set(i, ni);
            proof {
                assert(infos_view(infos@) =~= infos_view(before).update(i as int, ni@));
            }
            later = true;
            last = i;
        }
        i += 1;
    }
    let ghost u = infos_view(infos@);
    proof {
        assert(u =~= Seq::new(
            t0.len(),
            |j: int|
                if touched(g, a as int, b as int, j) {
                    touch(t0[j], touched_below(g, a as int, b as int, j), e@.check_in, e@.in_comment)
                } else {
                    t0[j]
                },
        ));
    }
    if last < n {
        let f = finish_info(&infos[last], b, e.out_comment());
        infos.set(last, f);
        proof {
            assert(infos_view(infos@) =~= u.update(last as int, finish(u[last as int], b, e@.out_comment)));
            assert(last_touched(g, a as int, b as int, t0.len() as int) == last);
            assert(infos_view(infos@) == lay_entry(t0, g, end as int, e@));
        }
    } else {
        proof {
            lemma_last_touched_below(g, a as int, b as int, t0.len() as int);
            assert(last_touched(g, a as int, b as int, t0.len() as int) < 0);
            assert(infos_view(infos@) == lay_entry(t0, g, end as int, e@));
        }
    }
}

/// Lays the open session, running until `now`, over the slots; where it
/// touches a slot that is not empty, leaves the slots as they are and says so.
fn lay_session_exec(infos: &mut Vec<Info>, start: i64, slice: i128, s: &Session, now: i64) -> (r: bool)
    requires
        0 <= slice < 0x1_0000_0000_0000_0000,
        old(infos)@.len() <= 0x1_0000,
    ensures
        final(infos)@.len() == old(infos)@.len(),
        ({
            let g = Grid { start: start as int, slice: slice as int, count: old(infos)@.len() as int };
            &&& r == session_collides(infos_view(old(infos)@), g, s@, now as int)
            &&& r ==> final(infos)@ == old(infos)@
            &&& !r ==> infos_view(final(infos)@) == lay_session(
                infos_view(old(infos)@),
                g,
                s@,
                now as int,
            )
        }),
{
    let ghost g = Grid { start: start as int, slice: slice as int, count: old(infos)@.len() as int };
    let ghost t0 = infos_view(infos@);
    let a = s.check_in;
    let n = infos.len();
    let mut i: usize = 0;
    while i < n
        invariant
            i <= n,
            n == infos@.len(),
            n <= 0x1_0000,
            0 <= slice < 0x1_0000_0000_0000_0000,
            g == (Grid { start: start as int, slice: slice as int, count: n as int }),
            t0 == infos_view(infos@),
            a == s.check_in,
            forall|j: int|
                0 <= j < i ==> !(touched(g, a as int, now as int, j) && !(t0[j] is Empty)),
        decreases n - i,
    {
        if touches_slot(start, slice, i, a, now as i128) {
            match &infos[i] {
                Info::Empty => {},
                _ => {
                    proof {
                        assert(t0[i as int] == infos@[i as int]@);
                        assert(touched(g, s@.check_in as int, now as int, i as int) && !(
                        t0[i as int] is Empty));
                    }
                    return true;
                },
            }
        }
        i += 1;
    }
    let mut later = false;
    let mut i: usize = 0;
    while i < n
        invariant
            i <= n,
            n == infos@.len(),
            n <= 0x1_0000,
            0 <= slice < 0x1_0000_0000_0000_0000,
            g == (Grid { start: start as int, slice: slice as int, count: n as int }),
            t0.len() == n,
            a == s.check_in,
            forall|j: int| 0 <= j < n ==> !(touched(g, a as int, now as int, j) && !(t0[j] is Empty)),
            forall|j: int|
                0 <= j < i ==> infos_view(infos@)[j] == if touched(g, a as int, now as int, j) {
                    if touched_below(g, a as int, now as int, j) {
                        InfoView::SessionSpan
                    } else {
                        InfoView::SessionStart(a, s@.in_comment)
                    }
                } else {
                    t0[j]
                },
            forall|j: int| i <= j < n ==> infos_view(infos@)[j] == t0[j],
            later == touched_below(g, a as int, now as int, i as int),
        decreases n - i,
    {
        let ghost before = infos@;
        if touches_slot(start, slice, i, a, now as i128) {
            let ni = if later {
                Info::SessionSpan
            } else {
                Info::SessionStart(a, copy_comment(&s.in_comment))
            };
            infos.set(i, ni);
            proof {
                assert(infos_view(infos@) =~= infos_view(before).update(i as int, ni@));
            }
            later = true;
        }
        i += 1;
    }
    proof {
        assert(!session_collides(t0, g, s@, now as int));
        assert(infos_view(infos@) =~= lay_session(t0, g, s@, now as int));
    }
    false
}

/// The first instants of the slots lie within the window.
proof fn lemma_points_within(start: int, end: int, res: int, i: int)
    requires
        start <= end,
        res > 0,
        0 <= i <= res,
    ensures
        0 <= ((end - start) / res) * i <= end - start,
{
    let span = end - start;
    let slice = span / res;
    vstd::arithmetic::div_mod::lemma_fundamental_div_mod(span, res);
    assert(0 <= slice * i <= slice * res) by (nonlinear_arith)
        requires
            0 <= i <= res,
            slice >= 0,
    ;
}

impl TimeRange {
    /// The slots, oldest first.
    pub fn lines(&self) -> (r: &Vec<Line>)
        ensures
            r@.map_values(|l: Line| (l.date, l.info@)) == self@,
    {
        &self.lines
    }

    /// The UTC offset, in seconds east, at which the slots' instants are shown.
    pub fn offset(&self) -> (r: i32)
        ensures
            r == self.offset_spec(),
    {
        self.offset
    }

    /// The UTC offset at which the slots' instants are shown.
    pub closed spec fn offset_spec(&self) -> i32 {
        self.offset
    }
}

/// The window from `start` to `end` split into `resolution` slots, each
/// classified by the ledger's items: closed entries first, in order, then
/// the open session running until `now`. Fails where the open session runs
/// into a slot that an entry already classified. `offset` (seconds east of
/// UTC) is where the slots' instants are shown.
pub fn time_range(
    record: &Record,
    now: i64,
    start: i64,
    end: i64,
    resolution: u16,
    offset: i32,
) -> (r: Result<TimeRange, Main>)
    requires
        start <= end,
        resolution > 0,
        valid_offset(offset),
    ensures
        table_fails(record@, grid_of(start, end, resolution), end as int, now as int) ==> r
            == Err::<TimeRange, Main>(Main::SessionOverlap),
        !table_fails(record@, grid_of(start, end, resolution), end as int, now as int) ==> (r matches Ok(tr)
            && tr.offset_spec() == offset && tr@ == Seq::new(
            resolution as nat,
            |i: int|
                (
                    point(grid_of(start, end, resolution), i) as i64,
                    table(record@, grid_of(start, end, resolution), end as int, now as int)[i],
                ),
        )),
{
    let ghost g = grid_of(start, end, resolution);
    let span: i128 = end as i128 - start as i128;
    let slice: i128 = span / (resolution as i128);
    let n: usize = resolution as usize;
    let mut infos: Vec<Info> = Vec::new();
    let mut i: usize = 0;
    while i < n
        invariant
            i <= n,
            infos_view(infos@) == Seq::new(i as nat, |j: int| InfoView::Empty),
        decreases n - i,
    {
        let ghost before = infos@;
        infos.push(Info::Empty);
        i += 1;
        proof {
            assert(infos_view(infos@) =~= infos_view(before).push(InfoView::Empty));
            assert(infos_view(infos@) =~= Seq::new(i as nat, |j: int| InfoView::Empty));
        }
    }
    let entries = record.get_entries();
    let ghost es = record@.entries;
    let mut k: usize = 0;
    proof {
        assert(es.take(0) =~= Seq::<EntryView>::empty());
        assert(g == (Grid { start: start as int, slice: slice as int, count: n as int }));
    }
    while k < entries.len()
        invariant
            k <= entries@.len(),
            entries@.map_values(|e: Entry| e@) == es,
            infos@.len() == n,
            n == resolution,
            0 <= slice < 0x1_0000_0000_0000_0000,
            g == (Grid { start: start as int, slice: slice as int, count: n as int }),
            infos_view(infos@) == lay_entries(
                Seq::new(n as nat, |j: int| InfoView::Empty),
                g,
                end as int,
                es.take(k as int),
            ),
        decreases entries@.len() - k,
    {
        let e = &entries[k];
        proof {
            let t = es.take(k + 1);
            assert(t.drop_last() =~= es.take(k as int));
            assert(t.last() == e@);
        }
        lay_entry_exec(&mut infos, start, slice, end, e);
        k += 1;
    }
    proof {
        assert(es.take(k as int) =~= es);
    }
    match record.get_current_session() {
        Some(s) => {
            if lay_session_exec(&mut infos, start, slice, s, now) {
                return Err(Main::SessionOverlap);
            }
        },
        None => {},
    }
    let ghost full = infos@;
    let mut lines: Vec<Line> = Vec::new();
    let mut i: usize = 0;
    while i < n
        invariant
            i <= n,
            n == resolution,
            full.len() == n,
            infos@ == full.skip(i as int),
            g == (Grid { start: start as int, slice: slice as int, count: n as int }),
            start <= end,
            slice == (end - start) / (resolution as int),
            lines@.len() == i,
            forall|j: int|
                0 <= j < i ==> (#[trigger] lines@[j]).date == point(g, j) && lines@[j].info@
                    == full[j]@,
        decreases n - i,
    {
        proof {
            lemma_points_within(start as int, end as int, resolution as int, i as int);
        }
        let date = (start as i128 + slice * i as i128) as i64;
        let info = infos.remove(0);
        proof {
            assert(infos@ =~= full.skip(i + 1));
        }
        lines.push(Line { date, info });
        i += 1;
    }
    let tr = TimeRange { lines, offset };
    proof {
        assert(tr@ =~= Seq::new(
            resolution as nat,
            |i: int| (point(g, i) as i64, table(record@, g, end as int, now as int)[i]),
        ));
    }
    Ok(tr)
}

/// `str`'s `Debug` text of `s`: in double quotes, with escapes.
pub uninterp spec fn debug_quoted(s: Seq<char>) -> Seq<char>;

/// Relies on `str`'s `Debug` implementation: the text in double quotes,
/// special characters escaped.
#[verifier::external_body]
fn quoted(s: &str) -> (r: String)
    ensures
        r@ == debug_quoted(s@),
{
    format!("{:?}", s)
}

/// The glyphs of a slot: `width` full cells where the slot is classified,
/// else two background glyphs alternating, by index parity exclusive-or `bg`.
pub open spec fn slot_glyphs(info: InfoView, width: nat, bg: bool) -> Seq<char> {
    Seq::new(
        width,
        |i: int|
            if info is Empty {
                if bg != (i % 2 == 0) {
                    '\u{2591}'
                } else {
                    '\u{2592}'
                }
            } else {
                '\u{2593}'
            },
    )
}

/// A space and the quoted comment, if there is one.
pub open spec fn comment_suffix(c: Option<Seq<char>>) -> Seq<char> {
    match c {
        Some(c) => seq![' '] + debug_quoted(c),
        None => Seq::empty(),
    }
}

/// A star where there is a comment.
pub open spec fn star(c: Option<Seq<char>>) -> Seq<char> {
    if c is Some {
        seq!['*']
    } else {
        Seq::empty()
    }
}

/// The one comment of a whole item, starred and quoted, where exactly one
/// of its two comments is there.
pub open spec fn whole_suffix(a: Option<Seq<char>>, b: Option<Seq<char>>) -> Seq<char> {
    match (a, b) {
        (Some(c), None) => seq![' ', '*'] + debug_quoted(c),
        (None, Some(c)) => seq![' ', '*'] + debug_quoted(c),
        _ => Seq::empty(),
    }
}

/// The note after a slot's glyphs; `None` where an instant cannot be
/// formatted by `fmt`.
pub open spec fn annotation(info: InfoView, offset: i32, fmt: Seq<char>) -> Option<Seq<char>> {
    match info {
        InfoView::SessionStart(t, c) => match formatted_instant(t, offset, fmt) {
            Some(x) => Some(" In @ "@ + x + comment_suffix(c)),
            None => None,
        },
        InfoView::SessionEnd(t, c) => match formatted_instant(t, offset, fmt) {
            Some(x) => Some(" Out @ "@ + x + comment_suffix(c)),
            None => None,
        },
        InfoView::SessionWhole(a, b, ac, bc) => match (
            formatted_instant(a, offset, fmt),
            formatted_instant(b, offset, fmt),
        ) {
            (Some(x), Some(y)) => Some(
                seq![' '] + star(ac) + x + " -> "@ + star(bc) + y + whole_suffix(ac, bc),
            ),
            _ => None,
        },
        InfoView::Multi(n) => Some(" ["@ + decimal(n as nat) + " transitions overlapping]"@),
        _ => Some(Seq::empty()),
    }
}

/// The text of a slot: its formatted instant, a space, its glyphs and its note.
pub open spec fn line_text(l: (i64, InfoView), width: nat, bg: bool, offset: i32, fmt: Seq<char>) -> Option<
    Seq<char>,
> {
    match (formatted_instant(l.0, offset, fmt), annotation(l.1, offset, fmt)) {
        (Some(d), Some(a)) => Some(d + seq![' '] + slot_glyphs(l.1, width, bg) + a),
        _ => None,
    }
}

/// The slots' texts on lines of their own; the first slot's background
/// starts shifted, and the shift alternates.
pub open spec fn table_text(ls: Seq<(i64, InfoView)>, width: nat, offset: i32, fmt: Seq<char>) -> Option<
    Seq<char>,
>
    decreases ls.len(),
{
    if ls.len() == 0 {
        Some(Seq::empty())
    } else {
        let k = ls.len() - 1;
        match (table_text(ls.drop_last(), width, offset, fmt), line_text(ls.last(), width, k % 2 == 0, offset, fmt)) {
            (Some(a), Some(b)) => Some(
                if k == 0 {
                    b
                } else {
                    a + seq!['\n'] + b
                },
            ),
            _ => None,
        }
    }
}

/// Appends the formatted instant, or fails.
fn push_instant(out: &mut Vec<char>, t: i64, offset: i32, fmt: &str) -> (r: bool)
    requires
        valid_offset(offset),
    ensures
        r <==> formatted_instant(t, offset, fmt@) is Some,
        r ==> final(out)@ == old(out)@ + formatted_instant(t, offset, fmt@)->0,
{
    match format_instant(t, offset, fmt) {
        Some(text) => {
            let cs = chars_of(text.as_str());
            let mut i: usize = 0;
            let ghost start = out@;
            while i < cs.len()
                invariant
                    i <= cs@.len(),
                    out@ == start + cs@.take(i as int),
                decreases cs@.len() - i,
            {
                out.push(cs[i]);
                i += 1;
                proof {
                    assert(out@ =~= start + cs@.take(i as int));
                }
            }
            proof {
                assert(cs@.take(cs@.len() as int) =~= cs@);
            }
            true
        },
        None => false,
    }
}

/// Appends a comment in double quotes.
fn push_quoted(out: &mut Vec<char>, c: &String)
    ensures
        final(out)@ == old(out)@ + debug_quoted(c@),
{
    let q = quoted(c.as_str());
    push_str(out, q.as_str());
}

/// Appends a space and the quoted comment, if there is one.
fn push_comment(out: &mut Vec<char>, c: &Option<String>)
    ensures
        final(out)@ == old(out)@ + comment_suffix(opt_view(*c)),
{
    let ghost start = out@;
    match c {
        Some(c) => {
            out.push(' ');
            push_quoted(out, c);
            proof {
                assert(out@ =~= start + comment_suffix(opt_view(Some(*c))));
            }
        },
        None => {
            proof {
                assert(out@ =~= start + comment_suffix(opt_view(None)));
            }
        },
    }
}

impl Info {
    /// The glyphs of the slot, `width` of them.
    pub fn print(&self, width: u8, bg_toggle: bool) -> (r: Vec<char>)
        ensures
            r@ == slot_glyphs(self@, width as nat, bg_toggle),
    {
        let mut out: Vec<char> = Vec::new();
        let empty = match self {
            Info::Empty => true,
            _ => false,
        };
        let mut i: u8 = 0;
        while i < width
            invariant
                i <= width,
                empty == self@ is Empty,
                out@ =~= slot_glyphs(self@, width as nat, bg_toggle).take(i as int),
            decreases width - i,
        {
            let g = if !empty {
                '\u{2593}'
            } else if bg_toggle != (i % 2 == 0) {
                '\u{2591}'
            } else {
                '\u{2592}'
            };
            out.push(g);
            i += 1;
        }
        proof {
            assert(slot_glyphs(self@, width as nat, bg_toggle).take(width as int) =~= slot_glyphs(
                self@,
                width as nat,
                bg_toggle,
            ));
        }
        out
    }

    /// The note after the slot's glyphs.
    fn push_annotation(&self, out: &mut Vec<char>, offset: i32, fmt: &str) -> (r: bool)
        requires
            valid_offset(offset),
        ensures
            r <==> annotation(self@, offset, fmt@) is Some,
            r ==> final(out)@ == old(out)@ + annotation(self@, offset, fmt@)->0,
    {
        let ghost start = out@;
        match self {
            Info::SessionStart(t, c) => {
                push_str(out, " In @ ");
                if !push_instant(out, *t, offset, fmt) {
                    return false;
                }
                push_comment(out, c);
                proof {
                    assert(out@ =~= start + annotation(self@, offset, fmt@)->0);
                }
                true
            },
            Info::SessionEnd(t, c) => {
                push_str(out, " Out @ ");
                if !push_instant(out, *t, offset, fmt) {
                    return false;
                }
                push_comment(out, c);
                proof {
                    assert(out@ =~= start + annotation(self@, offset, fmt@)->0);
                }
                true
            },
            Info::SessionWhole(a, b, ac, bc) => {
                out.push(' ');
                if ac.is_some() {
                    out.push('*');
                }
                if !push_instant(out, *a, offset, fmt) {
                    return false;
                }
                push_str(out, " -> ");
                if bc.is_some() {
                    out.push('*');
                }
                if !push_instant(out, *b, offset, fmt) {
                    return false;
                }
                match (ac, bc) {
                    (Some(c), None) => {
                        out.push(' ');
                        out.push('*');
                        push_quoted(out, c);
                    },
                    (None, Some(c)) => {
                        out.push(' ');
                        out.push('*');
                        push_quoted(out, c);
                    },
                    _ => {},
                }
                proof {
                    assert(out@ =~= start + annotation(self@, offset, fmt@)->0);
                }
                true
            },
            Info::Multi(n) => {
                push_str(out, " [");
                let mut digits = decimal_chars(*n as u128);
                out.append(&mut digits);
                push_str(out, " transitions overlapping]");
                proof {
                    assert(out@ =~= start + annotation(self@, offset, fmt@)->0);
                }
                true
            },
            _ => {
                proof {
                    assert(out@ =~= start + annotation(self@, offset, fmt@)->0);
                }
                true
            },
        }
    }
}

impl Line {
    /// The slot's text: its formatted instant, a space, its glyphs and its
    /// note; fails where `date_format` cannot format an instant.
    pub fn print(&self, width: u8, bg_toggle: bool, date_format: &str, offset: i32) -> (r: Result<
        Vec<char>,
        Main,
    >)
        requires
            valid_offset(offset),
        ensures
            match line_text((self.date, self.info@), width as nat, bg_toggle, offset, date_format@) {
                Some(t) => r matches Ok(v) && v@ == t,
                None => r == Err::<Vec<char>, Main>(Main::Format),
            },
    {
        let mut out: Vec<char> = Vec::new();
        if !push_instant(&mut out, self.date, offset, date_format) {
            return Err(Main::Format);
        }
        out.push(' ');
        let mut glyphs = self.info.print(width, bg_toggle);
        out.append(&mut glyphs);
        if !self.info.push_annotation(&mut out, offset, date_format) {
            return Err(Main::Format);
        }
        Ok(out)
    }
}

impl TimeRange {
    /// Every slot's text on a line of its own; fails where `date_format`
    /// cannot format an instant.
    pub fn print(&self, width: u8, date_format: &str) -> (r: Result<String, Main>)
        requires
            valid_offset(self.offset_spec()),
        ensures
            match table_text(self@, width as nat, self.offset_spec(), date_format@) {
                Some(t) => r matches Ok(s) && s@ == t,
                None => r == Err::<String, Main>(Main::Format),
            },
    {
        let mut out: Vec<char> = Vec::new();
        let mut i: usize = 0;
        proof {
            assert(self@.take(0) =~= Seq::<(i64, InfoView)>::empty());
        }
        while i < self.lines.len()
            invariant
                i <= self.lines@.len(),
                valid_offset(self.offset),
                table_text(self@.take(i as int), width as nat, self.offset, date_format@) == Some(out@),
            decreases self.lines@.len() - i,
        {
            let ghost before = out@;
            proof {
                let t = self@.take(i + 1);
                assert(t.drop_last() =~= self@.take(i as int));
                assert(t.last() == (self.lines@[i as int].date, self.lines@[i as int].info@));
            }
            match self.lines[i].print(width, i % 2 == 0, date_format, self.offset) {
                Ok(mut text) => {
                    let ghost t = text@;
                    if i != 0 {
                        out.push('\n');
                    }
                    out.append(&mut text);
                    proof {
                        if i == 0 {
                            assert(before =~= Seq::<char>::empty());
                            assert(out@ =~= t);
                        } else {
                            assert(out@ =~= before + seq!['\n'] + t);
                        }
                    }
                },
                Err(e) => {
                    proof {
                        lemma_table_text_fails(self@, i as int + 1, width as nat, self.offset, date_format@);
                        assert(self@.take(self@.len() as int) =~= self@);
                    }
                    return Err(e);
                },
            }
            i += 1;
        }
        proof {
            assert(self@.take(i as int) =~= self@);
        }
        Ok(string_of(&out))
    }
}

/// Once a prefix of the slots cannot be printed, the whole cannot.
proof fn lemma_table_text_fails(ls: Seq<(i64, InfoView)>, j: int, width: nat, offset: i32, fmt: Seq<char>)
    requires
        0 <= j <= ls.len(),
        table_text(ls.take(j), width, offset, fmt) is None,
    ensures
        table_text(ls, width, offset, fmt) is None,
    decreases ls.len(),
{
    if j == ls.len() {
        assert(ls.take(j) =~= ls);
    } else {
        assert(ls.drop_last().take(j) =~= ls.take(j));
        lemma_table_text_fails(ls.drop_last(), j, width, offset, fmt);
    }
}

/// What the day view of `day` at `offset` is: the time spent in the day's
/// window, from its first instant to the next day's first, and the window's
/// slots, `slots_per_hour(resolution)` to an hour; or the error and the
/// inputs that give it.
pub open spec fn day_view_result(
    rec: RecordView,
    day: i64,
    now: i64,
    offset: i32,
    resolution: DayResolution,
    res: Result<(i128, TimeRange), Main>,
) -> bool {
    let s = day_start(day as int, offset as int);
    let e = s + 86_400_000_000_000;
    if !(in_i64(s) && in_i64(e)) {
        res == Err::<(i128, TimeRange), Main>(Main::DateOutOfRange)
    } else {
        let total = span_sum(cropped(rec, s as i64, e as i64, now));
        let count = (24 * slots_per_hour(resolution)) as u16;
        let g = grid_of(s as i64, e as i64, count);
        if total > i128::MAX {
            res == Err::<(i128, TimeRange), Main>(Main::DurationOverflow)
        } else if table_fails(rec, g, e, now as int) {
            res == Err::<(i128, TimeRange), Main>(Main::SessionOverlap)
        } else {
            res matches Ok(v) && v.0 == total && v.1.offset_spec() == offset && v.1@ == Seq::new(
                count as nat,
                |i: int| (point(g, i) as i64, table(rec, g, e, now as int)[i]),
            )
        }
    }
}

/// The day view of `day` at `offset`: the time spent in the day's window,
/// from its first instant to the next day's first, and the window split
/// into `resolution`'s slots per hour. The open session runs until `now`.
pub fn day_view(
    record: &Record,
    day: i64,
    now: i64,
    offset: i32,
    resolution: DayResolution,
) -> (r: Result<(i128, TimeRange), Main>)
    requires
        valid_offset(offset),
    ensures
        day_view_result(record@, day, now, offset, resolution, r),
{
    let start = match day_start_instant(day, offset) {
        Some(t) => t,
        None => {
            return Err(Main::DateOutOfRange);
        },
    };
    let end = match start.checked_add(86_400_000_000_000) {
        Some(t) => t,
        None => {
            return Err(Main::DateOutOfRange);
        },
    };
    proof {
        crate::record::lemma_crop_within(
            crate::record::item_pairs(record@, crate::record::earlier(now, end)),
            start,
            end,
        );
    }
    let total = match record.try_into_cropped_datetime_ranges(start, end, now) {
        Ok(ranges) => match total_span(&ranges) {
            Ok(t) => t,
            Err(e) => {
                return Err(e);
            },
        },
        Err(e) => {
            return Err(e);
        },
    };
    let slots: u16 = 24 * resolution.as_hour_fraction();
    proof {
        let sp = slots_per_hour(resolution);
        assert(1 <= sp <= 60);
        assert(slots as int == 24 * sp);
        assert(slots == (24 * sp) as u16);
        assert(start as int == day_start(day as int, offset as int));
        assert(end as int == start + 86_400_000_000_000);
    }
    proof {
        let sd = day_start(day as int, offset as int);
        assert(sd as i64 == start);
        assert((sd + 86_400_000_000_000) as i64 == end);
        assert(total == span_sum(cropped(record@, start, end, now)));
    }
    match time_range(record, now, start, end, slots, offset) {
        Ok(tr) => Ok((total, tr)),
        Err(e) => Err(e),
    }
}

} // verus!
