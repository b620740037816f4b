//! Reading back the text of a ledger gives the ledger.
use vstd::prelude::*;
use crate::error::Main;
use crate::record::{
    entries_of, entries_ordered, entries_text, entry_of_lines, entry_of_paragraph, entry_text,
    padded, parse_text, record_text, session_of_line, stamp_line, stamp_parts, EntryView,
    RecordView,
};
use crate::time::{rfc3339_instant, rfc3339_text};
use crate::text::{
    is_white, join_spaced, kept_tokens, lemma_pieces_nonempty, pieces, sparse_tokens, starts_with,
    trim, trim_end, trim_start, with_head,
};

verus! {

/// `k` spaces.
pub open spec fn spaces(k: nat) -> Seq<char> {
    Seq::new(k, |i: int| ' ')
}

/// Where no occurrence of `sep` starts inside `a`, `a` is the head of the
/// first piece.
proof fn lemma_pieces_prefix(a: Seq<char>, r: Seq<char>, sep: Seq<char>)
    requires
        sep.len() > 0,
        forall|i: int| 0 <= i < a.len() ==> !starts_with(#[trigger] (a + r).skip(i), sep),
    ensures
        pieces(a + r, sep) == with_head(a, pieces(r, sep)),
    decreases a.len(),
{
    lemma_pieces_nonempty(r, sep);
    if a.len() == 0 {
        assert(a + r =~= r);
        assert(with_head(a, pieces(r, sep)) =~= pieces(r, sep));
    } else {
        let s = a + r;
        assert(s.skip(0) =~= s);
        assert(!starts_with(s.skip(0), sep));
        let a2 = a.skip(1);
        assert(s.skip(1) =~= a2 + r);
        assert forall|i: int| 0 <= i < a2.len() implies !starts_with(
            #[trigger] (a2 + r).skip(i),
            sep,
        ) by {
            assert((a2 + r).skip(i) =~= s.skip(i + 1));
        }
        lemma_pieces_prefix(a2, r, sep);
        let p = pieces(r, sep);
        assert(s[0] == a[0]);
        assert(seq![a[0]] + (a2 + p[0]) =~= a + p[0]);
        assert(with_head(seq![a[0]], with_head(a2, p)) =~= with_head(a, p));
    }
}

/// A piece without the separator is the only piece.
proof fn lemma_pieces_single(a: Seq<char>, x: char)
    requires
        forall|i: int| 0 <= i < a.len() ==> a[i] != x,
    ensures
        pieces(a, seq![x]) == seq![a],
{
    assert forall|i: int| 0 <= i < a.len() implies !starts_with(
        #[trigger] (a + Seq::<char>::empty()).skip(i),
        seq![x],
    ) by {
        let t = (a + Seq::<char>::empty()).skip(i);
        assert(t.take(1)[0] == a[i]);
        assert(seq![x][0] == x);
        assert(t.take(1) != seq![x]);
    }
    lemma_pieces_prefix(a, Seq::empty(), seq![x]);
    assert(a + Seq::<char>::empty() =~= a);
    assert(with_head(a, seq![Seq::<char>::empty()]) =~= seq![a]);
}

/// Splitting at a single character splits both sides of one occurrence.
proof fn lemma_pieces_split(a: Seq<char>, b: Seq<char>, x: char)
    ensures
        pieces(a + seq![x] + b, seq![x]) == pieces(a, seq![x]) + pieces(b, seq![x]),
    decreases a.len(),
{
    let sep = seq![x];
    let s = a + sep + b;
    lemma_pieces_nonempty(b, sep);
    if a.len() == 0 {
        assert(s =~= sep + b);
        assert(s.take(1) =~= sep);
        assert(s.skip(1) =~= b);
    } else {
        let a2 = a.skip(1);
        assert(s.skip(1) =~= a2 + sep + b);
        lemma_pieces_split(a2, b, x);
        lemma_pieces_nonempty(a2, sep);
        if a[0] == x {
            assert(s.take(1) =~= sep);
            assert(a.take(1) =~= sep);
            assert(seq![Seq::<char>::empty()] + (pieces(a2, sep) + pieces(b, sep)) =~= (seq![
                Seq::<char>::empty(),
            ] + pieces(a2, sep)) + pieces(b, sep));
        } else {
            assert(s.take(1)[0] != x);
            assert(a.take(1)[0] != x);
            let p = pieces(a2, sep);
            let q = pieces(b, sep);
            assert(with_head(seq![a[0]], p + q) =~= with_head(seq![a[0]], p) + q);
        }
    }
}

/// The kept tokens of two runs of pieces are those of each, in order.
proof fn lemma_kept_concat(x: Seq<Seq<char>>, y: Seq<Seq<char>>)
    ensures
        kept_tokens(x + y) == kept_tokens(x) + kept_tokens(y),
    decreases y.len(),
{
    if y.len() == 0 {
        assert(x + y =~= x);
        assert(kept_tokens(x) + kept_tokens(y) =~= kept_tokens(x));
    } else {
        lemma_kept_concat(x, y.drop_last());
        assert((x + y).drop_last() =~= x + y.drop_last());
        assert((x + y).last() == y.last());
        let t = trim(y.last());
        if t.len() > 0 {
            assert(kept_tokens(x) + kept_tokens(y.drop_last()).push(t) =~= (kept_tokens(x)
                + kept_tokens(y.drop_last())).push(t));
        }
    }
}

/// A text that starts and ends with characters other than white space is
/// its own trim.
proof fn lemma_trim_id(s: Seq<char>)
    requires
        s.len() > 0,
        !is_white(s[0]),
        !is_white(s.last()),
    ensures
        trim(s) == s,
{
}

/// Trailing white space goes.
proof fn lemma_trim_end_white(x: Seq<char>, w: Seq<char>)
    requires
        x.len() > 0,
        !is_white(x.last()),
        forall|i: int| 0 <= i < w.len() ==> is_white(#[trigger] w[i]),
    ensures
        trim_end(x + w) == x,
    decreases w.len(),
{
    if w.len() == 0 {
        assert(x + w =~= x);
    } else {
        assert((x + w).drop_last() =~= x + w.drop_last());
        lemma_trim_end_white(x, w.drop_last());
    }
}

/// White space after a text that starts and ends with other characters
/// goes in the trim.
proof fn lemma_trim_white_tail(x: Seq<char>, w: Seq<char>)
    requires
        x.len() > 0,
        !is_white(x[0]),
        !is_white(x.last()),
        forall|i: int| 0 <= i < w.len() ==> is_white(#[trigger] w[i]),
    ensures
        trim(x + w) == x,
{
    assert((x + w)[0] == x[0]);
    assert(trim_start(x + w) == x + w);
    lemma_trim_end_white(x, w);
}

/// An empty piece holds no token.
proof fn lemma_empty_piece()
    ensures
        kept_tokens(seq![Seq::<char>::empty()]) == Seq::<Seq<char>>::empty(),
{
    let ps = seq![Seq::<char>::empty()];
    assert(kept_tokens(Seq::<Seq<char>>::empty()) =~= Seq::<Seq<char>>::empty());
    assert(ps.drop_last() =~= Seq::<Seq<char>>::empty());
    assert(ps.last() == Seq::<char>::empty());
    assert(trim_start(Seq::<char>::empty()) == Seq::<char>::empty());
    assert(trim(Seq::<char>::empty()) == Seq::<char>::empty());
}

/// Spaces hold no token.
proof fn lemma_spaces_no_tokens(k: nat)
    ensures
        kept_tokens(pieces(spaces(k), seq![' '])) == Seq::<Seq<char>>::empty(),
    decreases k,
{
    if k == 0 {
        assert(spaces(0) =~= Seq::<char>::empty());
        lemma_empty_piece();
    } else {
        lemma_spaces_no_tokens((k - 1) as nat);
        assert(spaces(k) =~= Seq::<char>::empty() + seq![' '] + spaces((k - 1) as nat));
        lemma_pieces_split(Seq::empty(), spaces((k - 1) as nat), ' ');
        assert(pieces(Seq::<char>::empty(), seq![' ']) == seq![Seq::<char>::empty()]);
        lemma_kept_concat(seq![Seq::<char>::empty()], pieces(spaces((k - 1) as nat), seq![' ']));
        lemma_empty_piece();
        assert(Seq::<Seq<char>>::empty() + Seq::<Seq<char>>::empty() =~= Seq::<Seq<char>>::empty());
    }
}

/// What the ledger's text needs of the timestamp text of `t`: it is not
/// empty, holds no white space, and reads back as `t`. The text of every
/// instant that a ledger writes has these.
pub open spec fn stamp_reads_back(t: i64) -> bool {
    let s = rfc3339_text(t);
    &&& s.len() > 0
    &&& forall|i: int| 0 <= i < s.len() ==> !is_white(#[trigger] s[i])
    &&& rfc3339_instant(s) == Some(t)
}

/// A comment that the ledger's text keeps as it is: not empty, no white
/// space at either end, no line break, and words separated by single spaces.
pub open spec fn clean_comment(c: Seq<char>) -> bool {
    &&& c.len() > 0
    &&& !is_white(c[0])
    &&& !is_white(c.last())
    &&& forall|i: int| 0 <= i < c.len() ==> #[trigger] c[i] != '\n'
    &&& join_spaced(sparse_tokens(c, seq![' '])) == c
}

/// No comment, or a clean one.
pub open spec fn clean_opt(c: Option<Seq<char>>) -> bool {
    match c {
        Some(c) => clean_comment(c),
        None => true,
    }
}

/// A ledger line as it reads once trimmed: the timestamp alone where there
/// is no comment.
pub open spec fn trimmed_line(t: i64, c: Option<Seq<char>>) -> Seq<char> {
    match c {
        Some(_) => stamp_line(t, c),
        None => rfc3339_text(t),
    }
}

/// The tokens of a padded timestamp are the timestamp alone.
proof fn lemma_padded_tokens(t: i64, k: nat)
    requires
        stamp_reads_back(t),
    ensures
        kept_tokens(pieces(rfc3339_text(t) + spaces(k), seq![' '])) == seq![rfc3339_text(t)],
{
    let ts = rfc3339_text(t);
    lemma_pieces_single(ts, ' ');
    lemma_trim_id(ts);
    let one = seq![ts];
    assert(kept_tokens(Seq::<Seq<char>>::empty()) =~= Seq::<Seq<char>>::empty());
    assert(one.drop_last() =~= Seq::<Seq<char>>::empty());
    assert(kept_tokens(one) =~= one);
    if k == 0 {
        assert(ts + spaces(k) =~= ts);
    } else {
        assert(ts + spaces(k) =~= ts + seq![' '] + spaces((k - 1) as nat));
        lemma_pieces_split(ts, spaces((k - 1) as nat), ' ');
        lemma_kept_concat(one, pieces(spaces((k - 1) as nat), seq![' ']));
        lemma_spaces_no_tokens((k - 1) as nat);
        assert(one + Seq::<Seq<char>>::empty() =~= one);
    }
}

/// What the lines of the ledger's text are made of.
proof fn lemma_line(t: i64, c: Option<Seq<char>>)
    requires
        stamp_reads_back(t),
        clean_opt(c),
    ensures
        ({
            let s = stamp_line(t, c);
            let p = trimmed_line(t, c);
            &&& s.len() > 0
            &&& !is_white(s[0])
            &&& s.last() != '\n'
            &&& forall|i: int| 0 <= i < s.len() ==> #[trigger] s[i] != '\n'
            &&& p.len() > 0
            &&& !is_white(p[0])
            &&& !is_white(p.last())
            &&& forall|i: int| 0 <= i < p.len() ==> #[trigger] p[i] != '\n'
            &&& forall|w: Seq<char>|
                (forall|i: int| 0 <= i < w.len() ==> is_white(#[trigger] w[i])) ==> #[trigger] trim(
                    s + w,
                ) == p
            &&& stamp_parts(p) == Some((rfc3339_text(t), c))
            &&& p.len() <= s.len()
            &&& s == p + s.skip(p.len() as int)
            &&& forall|i: int| p.len() <= i < s.len() ==> is_white(#[trigger] s[i])
        }),
{
    let ts = rfc3339_text(t);
    let k: nat = if ts.len() < 32 {
        (32 - ts.len()) as nat
    } else {
        0
    };
    assert(padded(ts) =~= ts + spaces(k));
    let s = stamp_line(t, c);
    let p = trimmed_line(t, c);
    lemma_padded_tokens(t, k);
    match c {
        None => {
            assert(s =~= ts + spaces(k));
            assert(s.skip(p.len() as int) =~= spaces(k));
            assert forall|w: Seq<char>|
                (forall|i: int| 0 <= i < w.len() ==> is_white(#[trigger] w[i])) implies #[trigger] trim(
                s + w,
            ) == p by {
                assert(s + w =~= ts + (spaces(k) + w));
                lemma_trim_white_tail(ts, spaces(k) + w);
            }
            lemma_pieces_single(ts, ' ');
            lemma_trim_id(ts);
            let one = seq![ts];
            assert(kept_tokens(Seq::<Seq<char>>::empty()) =~= Seq::<Seq<char>>::empty());
            assert(one.drop_last() =~= Seq::<Seq<char>>::empty());
            assert(kept_tokens(one) =~= one);
            assert(sparse_tokens(p, seq![' ']) == one);
        },
        Some(cm) => {
            let head = ts + spaces(k);
            assert(s.skip(p.len() as int) =~= Seq::<char>::empty());
            assert(s =~= head + seq![' '] + cm);
            assert(s.last() == cm.last());
            assert forall|i: int| 0 <= i < s.len() implies #[trigger] s[i] != '\n' by {
                if i < ts.len() {
                    assert(s[i] == ts[i]);
                } else if i < head.len() + 1 {
                    assert(s[i] == ' ');
                } else {
                    assert(s[i] == cm[i - head.len() - 1]);
                }
            }
            assert forall|w: Seq<char>|
                (forall|i: int| 0 <= i < w.len() ==> is_white(#[trigger] w[i])) implies #[trigger] trim(
                s + w,
            ) == p by {
                lemma_trim_white_tail(s, w);
            }
            lemma_pieces_split(head, cm, ' ');
            lemma_kept_concat(pieces(head, seq![' ']), pieces(cm, seq![' ']));
            let words = sparse_tokens(cm, seq![' ']);
            assert(words.len() > 0);
            let all = seq![ts] + words;
            assert(sparse_tokens(p, seq![' ']) == all);
            assert(all.skip(1) =~= words);
            assert(all[0] == ts);
        },
    }
}

/// A blank line: two line breaks.
pub open spec fn blank() -> Seq<char> {
    seq!['\n', '\n']
}

/// The paragraph of an entry as it reads once trimmed.
pub open spec fn paragraph(e: EntryView) -> Seq<char> {
    stamp_line(e.check_in, e.in_comment) + seq!['\n'] + trimmed_line(e.check_out, e.out_comment)
}

/// The comments of the entry are clean, and the text of its instants reads back.
pub open spec fn entry_writable(e: EntryView) -> bool {
    &&& clean_opt(e.in_comment)
    &&& clean_opt(e.out_comment)
    &&& stamp_reads_back(e.check_in)
    &&& stamp_reads_back(e.check_out)
    &&& e.check_in <= e.check_out
}

/// Every comment of the ledger is clean.
pub open spec fn record_clean(r: RecordView) -> bool {
    &&& forall|i: int|
        0 <= i < r.entries.len() ==> clean_opt((#[trigger] r.entries[i]).in_comment) && clean_opt(
            r.entries[i].out_comment,
        )
    &&& r.session matches Some(s) ==> clean_opt(s.in_comment)
}

/// The text of every instant of the ledger reads back as the instant.
pub open spec fn stamps_read_back(r: RecordView) -> bool {
    &&& forall|i: int|
        0 <= i < r.entries.len() ==> stamp_reads_back((#[trigger] r.entries[i]).check_in)
            && stamp_reads_back(r.entries[i].check_out)
    &&& r.session matches Some(s) ==> stamp_reads_back(s.check_in)
}

/// Whether `x` begins with a blank line.
proof fn lemma_blank_start(x: Seq<char>)
    requires
        starts_with(x, blank()),
    ensures
        x[0] == '\n',
        x[1] == '\n',
{
    assert(x.take(2)[0] == x[0]);
    assert(x.take(2)[1] == x[1]);
}

/// An entry's text splits off as one paragraph.
proof fn lemma_paragraph_split(e: EntryView, tail: Seq<char>)
    requires
        entry_writable(e),
    ensures
        sparse_tokens(entry_text(e) + tail, blank()) == seq![paragraph(e)] + sparse_tokens(
            tail,
            blank(),
        ),
        paragraph(e).len() > 0,
{
    let s1 = stamp_line(e.check_in, e.in_comment);
    let s2 = stamp_line(e.check_out, e.out_comment);
    let line_out = trimmed_line(e.check_out, e.out_comment);
    lemma_line(e.check_in, e.in_comment);
    lemma_line(e.check_out, e.out_comment);
    let a = s1 + seq!['\n'] + s2;
    let rest = blank() + tail;
    assert(entry_text(e) + tail =~= a + rest);
    let whole = a + rest;
    assert forall|i: int| 0 <= i < a.len() implies !starts_with(#[trigger] (a + rest).skip(i), blank()) by {
        if starts_with((a + rest).skip(i), blank()) {
            lemma_blank_start((a + rest).skip(i));
            assert(whole[i] == '\n');
            if i < s1.len() {
                assert(whole[i] == s1[i]);
            } else if i == s1.len() {
                assert(whole[i + 1] == s2[0]);
            } else {
                assert(whole[i] == s2[i - s1.len() - 1]);
            }
        }
    }
    lemma_pieces_prefix(a, rest, blank());
    assert(rest.take(2) =~= blank());
    assert(rest.skip(2) =~= tail);
    lemma_pieces_nonempty(tail, blank());
    let pt = pieces(tail, blank());
    assert(with_head(a, seq![Seq::<char>::empty()] + pt) =~= seq![a] + pt);
    lemma_kept_concat(seq![a], pt);
    // the paragraph trims to `paragraph(e)`
    let q = paragraph(e);
    let w = s2.skip(line_out.len() as int);
    assert(a =~= q + w);
    assert(q[0] == s1[0]);
    assert(q.last() == line_out.last());
    lemma_trim_white_tail(q, w);
    let one = seq![a];
    assert(kept_tokens(Seq::<Seq<char>>::empty()) =~= Seq::<Seq<char>>::empty());
    assert(one.drop_last() =~= Seq::<Seq<char>>::empty());
    assert(kept_tokens(one) =~= seq![q]);
}

/// An entry's paragraph reads back as the entry.
proof fn lemma_paragraph_entry(e: EntryView)
    requires
        entry_writable(e),
    ensures
        entry_of_paragraph(paragraph(e)) == Ok::<EntryView, Main>(e),
{
    let s1 = stamp_line(e.check_in, e.in_comment);
    let line_in = trimmed_line(e.check_in, e.in_comment);
    let line_out = trimmed_line(e.check_out, e.out_comment);
    lemma_line(e.check_in, e.in_comment);
    lemma_line(e.check_out, e.out_comment);
    lemma_pieces_split(s1, line_out, '\n');
    lemma_pieces_single(s1, '\n');
    lemma_pieces_single(line_out, '\n');
    assert(s1 + Seq::<char>::empty() =~= s1);
    assert(trim(s1) == line_in);
    lemma_trim_id(line_out);
    let two = seq![s1, line_out];
    assert(seq![s1] + seq![line_out] =~= two);
    assert(kept_tokens(Seq::<Seq<char>>::empty()) =~= Seq::<Seq<char>>::empty());
    assert(two.drop_last() =~= seq![s1]);
    assert(seq![s1].drop_last() =~= Seq::<Seq<char>>::empty());
    assert(kept_tokens(seq![s1]) =~= seq![line_in]);
    assert(kept_tokens(two) =~= seq![line_in, line_out]);
}

/// The entries' paragraphs, in order.
pub open spec fn paragraphs(es: Seq<EntryView>) -> Seq<Seq<char>> {
    es.map_values(|e: EntryView| paragraph(e))
}

/// The entries' text splits into their paragraphs.
proof fn lemma_entries_split(es: Seq<EntryView>, tail: Seq<char>)
    requires
        forall|i: int| 0 <= i < es.len() ==> entry_writable(#[trigger] es[i]),
    ensures
        sparse_tokens(entries_text(es) + tail, blank()) == paragraphs(es) + sparse_tokens(
            tail,
            blank(),
        ),
    decreases es.len(),
{
    if es.len() == 0 {
        assert(entries_text(es) + tail =~= tail);
        assert(paragraphs(es) + sparse_tokens(tail, blank()) =~= sparse_tokens(tail, blank()));
    } else {
        let init = es.drop_last();
        let e = es.last();
        let tail2 = entry_text(e) + tail;
        assert(entries_text(es) + tail =~= entries_text(init) + tail2);
        lemma_entries_split(init, tail2);
        lemma_paragraph_split(e, tail);
        assert(paragraphs(init) + (seq![paragraph(e)] + sparse_tokens(tail, blank())) =~= paragraphs(
            es,
        ) + sparse_tokens(tail, blank()));
    }
}

/// The entries' paragraphs read back as the entries.
proof fn lemma_entries_of_paragraphs(es: Seq<EntryView>)
    requires
        forall|i: int| 0 <= i < es.len() ==> entry_writable(#[trigger] es[i]),
    ensures
        entries_of(paragraphs(es)) == Ok::<Seq<EntryView>, Main>(es),
    decreases es.len(),
{
    if es.len() == 0 {
        assert(paragraphs(es) =~= Seq::<Seq<char>>::empty());
        assert(es =~= seq![]);
    } else {
        let init = es.drop_last();
        lemma_entries_of_paragraphs(init);
        assert(paragraphs(es).drop_last() =~= paragraphs(init));
        lemma_paragraph_entry(es.last());
        assert(init.push(es.last()) =~= es);
    }
}

/// The open session's line reads back as one paragraph of one line.
proof fn lemma_session_tail(t: i64, c: Option<Seq<char>>)
    requires
        stamp_reads_back(t),
        clean_opt(c),
    ensures
        sparse_tokens(stamp_line(t, c) + seq!['\n'], blank()) == seq![trimmed_line(t, c)],
        sparse_tokens(trimmed_line(t, c), seq!['\n']) == seq![trimmed_line(t, c)],
{
    let s = stamp_line(t, c);
    let p = trimmed_line(t, c);
    lemma_line(t, c);
    let a = s + seq!['\n'];
    assert forall|i: int| 0 <= i < a.len() implies !starts_with(
        #[trigger] (a + Seq::<char>::empty()).skip(i),
        blank(),
    ) by {
        if starts_with((a + Seq::<char>::empty()).skip(i), blank()) {
            lemma_blank_start((a + Seq::<char>::empty()).skip(i));
            assert(a[i] == s[i]);
        }
    }
    lemma_pieces_prefix(a, Seq::empty(), blank());
    assert(a + Seq::<char>::empty() =~= a);
    assert(with_head(a, seq![Seq::<char>::empty()]) =~= seq![a]);
    assert(trim(s + seq!['\n']) == p);
    let one = seq![a];
    assert(kept_tokens(Seq::<Seq<char>>::empty()) =~= Seq::<Seq<char>>::empty());
    assert(one.drop_last() =~= Seq::<Seq<char>>::empty());
    assert(kept_tokens(one) =~= seq![p]);
    lemma_pieces_single(p, '\n');
    lemma_trim_id(p);
    let two = seq![p];
    assert(two.drop_last() =~= Seq::<Seq<char>>::empty());
    assert(kept_tokens(two) =~= seq![p]);
}

/// Reading back the text of a ledger gives the ledger, where every entry
/// checks in no later than it checks out, every comment is clean (not
/// empty, no white space at either end, no line break, single spaces
/// between words), and the text of every instant reads back as the instant
/// (which `Record::serialize` ensures of the ledger it writes).
pub proof fn lemma_parse_serialize(r: RecordView)
    requires
        entries_ordered(r),
        record_clean(r),
        stamps_read_back(r),
    ensures
        parse_text(record_text(r)) == Ok::<RecordView, Main>(r),
{
    let es = r.entries;
    assert forall|i: int| 0 <= i < es.len() implies entry_writable(#[trigger] es[i]) by {
        assert(es[i].check_in <= es[i].check_out);
    }
    let tail = match r.session {
        Some(s) => stamp_line(s.check_in, s.in_comment) + seq!['\n'],
        None => Seq::empty(),
    };
    assert(record_text(r) == entries_text(es) + tail);
    lemma_entries_split(es, tail);
    lemma_entries_of_paragraphs(es);
    let ps = sparse_tokens(record_text(r), blank());
    assert(blank() =~= seq!['\n', '\n']);
    match r.session {
        Some(s) => {
            lemma_session_tail(s.check_in, s.in_comment);
            lemma_line(s.check_in, s.in_comment);
            let p = trimmed_line(s.check_in, s.in_comment);
            assert(ps == paragraphs(es) + seq![p]);
            assert(ps.drop_last() =~= paragraphs(es));
            assert(ps.last() == p);
            assert(session_of_line(p) == Ok::<crate::record::SessionView, Main>(s));
        },
        None => {
            assert(pieces(Seq::<char>::empty(), blank()) == seq![Seq::<char>::empty()]);
            lemma_empty_piece();
            assert(ps =~= paragraphs(es));
            if es.len() == 0 {
                assert(es =~= seq![]);
            } else {
                let init = es.drop_last();
                let e = es.last();
                lemma_entries_of_paragraphs(init);
                assert(ps.drop_last() =~= paragraphs(init));
                assert(ps.last() == paragraph(e));
                lemma_paragraph_entry(e);
                assert(init.push(e) =~= es);
            }
        },
    }
}

} // verus!
