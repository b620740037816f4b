//! Splitting ledger text into trimmed, non-empty tokens.
use vstd::prelude::*;

verus! {

/// Whether `c` is white space in the sense of Unicode's `White_Space`
/// property: the characters that `char::is_whitespace` and `str::trim` use.
pub open spec fn is_white(c: char) -> bool {
    ||| c == '\t'
    ||| c == '\n'
    ||| c == '\x0B'
    ||| c == '\x0C'
    ||| c == '\r'
    ||| c == ' '
    ||| c == '\u{85}'
    ||| c == '\u{A0}'
    ||| c == '\u{1680}'
    ||| (0x2000 <= (c as u32) && (c as u32) <= 0x200A)
    ||| c == '\u{2028}'
    ||| c == '\u{2029}'
    ||| c == '\u{202F}'
    ||| c == '\u{205F}'
    ||| c == '\u{3000}'
}

/// `s` without its leading white space.
pub open spec fn trim_start(s: Seq<char>) -> Seq<char>
    decreases s.len(),
{
    if s.len() > 0 && is_white(s[0]) {
        trim_start(s.skip(1))
    } else {
        s
    }
}

/// `s` without its trailing white space.
pub open spec fn trim_end(s: Seq<char>) -> Seq<char>
    decreases s.len(),
{
    if s.len() > 0 && is_white(s.last()) {
        trim_end(s.drop_last())
    } else {
        s
    }
}

/// `s` without white space at either end.
pub open spec fn trim(s: Seq<char>) -> Seq<char> {
    trim_end(trim_start(s))
}

/// Whether `s` begins with `p`.
pub open spec fn starts_with(s: Seq<char>, p: Seq<char>) -> bool {
    p.len() <= s.len() && s.take(p.len() as int) == p
}

/// The pieces of `s` between occurrences of `sep`, matched from the left
/// without overlap; there is always at least one piece.
pub open spec fn pieces(s: Seq<char>, sep: Seq<char>) -> Seq<Seq<char>>
    decreases s.len(),
{
    if s.len() == 0 {
        seq![Seq::empty()]
    } else if sep.len() > 0 && starts_with(s, sep) {
        seq![Seq::empty()] + pieces(s.skip(sep.len() as int), sep)
    } else {
        with_head(seq![s[0]], pieces(s.skip(1), sep))
    }
}

/// `ps` with `h` put in front of its first piece.
pub open spec fn with_head(h: Seq<char>, ps: Seq<Seq<char>>) -> Seq<Seq<char>> {
    ps.update(0, h + ps[0])
}

/// The trimmed pieces that are not empty, in order.
pub open spec fn kept_tokens(ps: Seq<Seq<char>>) -> Seq<Seq<char>>
    decreases ps.len(),
{
    if ps.len() == 0 {
        seq![]
    } else {
        let rest = kept_tokens(ps.drop_last());
        let t = trim(ps.last());
        if t.len() > 0 {
            rest.push(t)
        } else {
            rest
        }
    }
}

/// The pieces of `s` around an empty separator: an empty piece, each
/// character on its own, and an empty piece.
pub open spec fn char_pieces(s: Seq<char>) -> Seq<Seq<char>> {
    seq![Seq::<char>::empty()] + s.map_values(|c: char| seq![c]) + seq![Seq::<char>::empty()]
}

/// The pieces of `s` at every occurrence of `sep`; an empty separator
/// matches before and after every character.
pub open spec fn split_at_all(s: Seq<char>, sep: Seq<char>) -> Seq<Seq<char>> {
    if sep.len() == 0 {
        char_pieces(s)
    } else {
        pieces(s, sep)
    }
}

/// The tokens of `s` between occurrences of `sep`: trimmed, and empty ones left out.
pub open spec fn sparse_tokens(s: Seq<char>, sep: Seq<char>) -> Seq<Seq<char>> {
    kept_tokens(split_at_all(s, sep))
}

/// The tokens joined with one space between neighbours.
pub open spec fn join_spaced(ts: Seq<Seq<char>>) -> Seq<char>
    decreases ts.len(),
{
    if ts.len() == 0 {
        Seq::empty()
    } else if ts.len() == 1 {
        ts[0]
    } else {
        join_spaced(ts.drop_last()) + seq![' '] + ts.last()
    }
}

/// The character sequences held by a vector of character vectors.
pub open spec fn seqs_of(v: Seq<Vec<char>>) -> Seq<Seq<char>> {
    v.map_values(|x: Vec<char>| x@)
}

/// The character sequences held by a vector of strings.
pub open spec fn strings_of(v: Seq<String>) -> Seq<Seq<char>> {
    v.map_values(|x: String| x@)
}

/// Splitting always gives at least one piece.
pub proof fn lemma_pieces_nonempty(s: Seq<char>, sep: Seq<char>)
    ensures
        pieces(s, sep).len() >= 1,
    decreases s.len(),
{
    if s.len() == 0 {
    } else if sep.len() > 0 && starts_with(s, sep) {
        lemma_pieces_nonempty(s.skip(sep.len() as int), sep);
    } else {
        lemma_pieces_nonempty(s.skip(1), sep);
    }
}

/// Relies on `str::chars`: the characters of `s`, in order.
#[verifier::external_body]
pub(crate) fn chars_of(s: &str) -> (r: Vec<char>)
    ensures
        r@ == s@,
{
    s.chars().collect()
}

/// Relies on `String`'s `FromIterator<char>`: the characters, in order, as a string.
#[verifier::external_body]
pub(crate) fn string_of(v: &Vec<char>) -> (r: String)
    ensures
        r@ == v@,
{
    v.iter().collect()
}

/// Whether `c` is white space (Unicode `White_Space`).
pub fn is_white_char(c: char) -> (r: bool)
    ensures
        r == is_white(c),
{
    let u = c as u32;
    c == '\t' || c == '\n' || c == '\x0B' || c == '\x0C' || c == '\r' || c == ' ' || c == '\u{85}'
        || c == '\u{A0}' || c == '\u{1680}' || (0x2000 <= u && u <= 0x200A) || c == '\u{2028}'
        || c == '\u{2029}' || c == '\u{202F}' || c == '\u{205F}' || c == '\u{3000}'
}

/// Whether `sep` occurs in `s` at position `i`.
fn matches_at(s: &Vec<char>, i: usize, sep: &Vec<char>) -> (r: bool)
    requires
        i <= s@.len(),
    ensures
        r == starts_with(s@.skip(i as int), sep@),
{
    let n = s.len();
    if sep.len() > n - i {
        return false;
    }
    let mut j: usize = 0;
    while j < sep.len()
        invariant
            j <= sep@.len(),
            n == s@.len(),
            i <= s@.len(),
            sep@.len() <= s@.len() - i,
            forall|k: int| 0 <= k < j ==> s@[i + k] == sep@[k],
        decreases sep@.len() - j,
    {
        if s[i + j] != sep[j] {
            assert(s@.skip(i as int).take(sep@.len() as int)[j as int] != sep@[j as int]);
            return false;
        }
        j += 1;
    }
    assert(s@.skip(i as int).take(sep@.len() as int) =~= sep@);
    true
}

/// The pieces of `s` between occurrences of `sep`.
fn split_pieces(s: &Vec<char>, sep: &Vec<char>) -> (r: Vec<Vec<char>>)
    requires
        sep@.len() > 0,
    ensures
        seqs_of(r@) == pieces(s@, sep@),
{
    let n = s.len();
    let mut done: Vec<Vec<char>> = Vec::new();
    let mut cur: Vec<char> = Vec::new();
    let mut i: usize = 0;
    proof {
        assert(s@.skip(0) =~= s@);
        lemma_pieces_nonempty(s@, sep@);
        assert(with_head(Seq::empty(), pieces(s@, sep@)) =~= pieces(s@, sep@));
        assert(seqs_of(done@) =~= Seq::<Seq<char>>::empty());
        assert(pieces(s@, sep@) =~= seqs_of(done@) + with_head(cur@, pieces(s@.skip(0), sep@)));
    }
    while i < n
        invariant
            i <= n,
            n == s@.len(),
            sep@.len() > 0,
            pieces(s@, sep@) == seqs_of(done@) + with_head(cur@, pieces(s@.skip(i as int), sep@)),
        decreases n - i,
    {
        let ghost rest = s@.skip(i as int);
        if matches_at(s, i, sep) {
            proof {
                let tail = pieces(rest.skip(sep@.len() as int), sep@);
                lemma_pieces_nonempty(rest.skip(sep@.len() as int), sep@);
                assert(rest.skip(sep@.len() as int) =~= s@.skip(i + sep@.len()));
                assert(with_head(cur@, seq![Seq::empty()] + tail) =~= seq![cur@] + with_head(
                    Seq::empty(),
                    tail,
                ));
                assert(with_head(Seq::empty(), tail) =~= tail);
                assert(seqs_of(done@.push(cur)) =~= seqs_of(done@).push(cur@));
            }
            done.push(cur);
            cur = Vec::new();
            i += sep.len();
        } else {
            let c = s[i];
            proof {
                let tail = pieces(rest.skip(1), sep@);
                lemma_pieces_nonempty(rest.skip(1), sep@);
                assert(rest.skip(1) =~= s@.skip(i + 1));
                assert(rest[0] == c);
                assert(cur@ + (seq![c] + tail[0]) =~= cur@.push(c) + tail[0]);
                assert(with_head(cur@, with_head(seq![c], tail)) =~= with_head(
                    cur@.push(c),
                    tail,
                ));
            }
            cur.push(c);
            i += 1;
        }
    }
    proof {
        assert(s@.skip(i as int) =~= Seq::<char>::empty());
        assert(with_head(cur@, seq![Seq::empty()]) =~= seq![cur@]);
        assert(seqs_of(done@.push(cur)) =~= seqs_of(done@).push(cur@));
    }
    done.push(cur);
    done
}

/// `s` without white space at either end.
pub fn trimmed(s: &Vec<char>) -> (r: Vec<char>)
    ensures
        r@ == trim(s@),
{
    let n = s.len();
    let mut a: usize = 0;
    proof {
        assert(s@.skip(0) =~= s@);
    }
    while a < n && is_white_char(s[a])
        invariant
            a <= n,
            n == s@.len(),
            trim_start(s@) == trim_start(s@.skip(a as int)),
        decreases n - a,
    {
        proof {
            assert(s@.skip(a as int).skip(1) =~= s@.skip(a + 1));
        }
        a += 1;
    }
    let mut b: usize = n;
    proof {
        assert(s@.skip(a as int) =~= s@.subrange(a as int, n as int));
    }
    while b > a && is_white_char(s[b - 1])
        invariant
            a <= b <= n,
            n == s@.len(),
            trim_start(s@) == s@.subrange(a as int, n as int),
            trim(s@) == trim_end(s@.subrange(a as int, b as int)),
        decreases b - a,
    {
        proof {
            assert(s@.subrange(a as int, b as int).drop_last() =~= s@.subrange(a as int, b - 1));
        }
        b -= 1;
    }
    let mut r: Vec<char> = Vec::new();
    let mut k: usize = a;
    while k < b
        invariant
            a <= k <= b <= n,
            n == s@.len(),
            r@ == s@.subrange(a as int, k as int),
        decreases b - k,
    {
        r.push(s[k]);
        k += 1;
        proof {
            assert(r@ =~= s@.subrange(a as int, k as int));
        }
    }
    r
}

/// The tokens of `s` between occurrences of `sep`, each trimmed, empty ones
/// left out.
pub fn sparse_split(s: &Vec<char>, sep: &Vec<char>) -> (r: Vec<Vec<char>>)
    requires
        sep@.len() > 0,
    ensures
        seqs_of(r@) == sparse_tokens(s@, sep@),
{
    let raw = split_pieces(s, sep);
    let mut out: Vec<Vec<char>> = Vec::new();
    let mut k: usize = 0;
    proof {
        assert(seqs_of(raw@).take(0) =~= Seq::<Seq<char>>::empty());
        assert(seqs_of(out@) =~= Seq::<Seq<char>>::empty());
    }
    while k < raw.len()
        invariant
            k <= raw@.len(),
            seqs_of(out@) == kept_tokens(seqs_of(raw@).take(k as int)),
        decreases raw@.len() - k,
    {
        let t = trimmed(&raw[k]);
        proof {
            let ps = seqs_of(raw@).take(k + 1);
            assert(ps.drop_last() =~= seqs_of(raw@).take(k as int));
            assert(ps.last() == raw@[k as int]@);
        }
        if t.len() > 0 {
            proof {
                assert(seqs_of(out@.push(t)) =~= seqs_of(out@).push(t@));
            }
            out.push(t);
        }
        k += 1;
    }
    proof {
        assert(seqs_of(raw@).take(raw@.len() as int) =~= seqs_of(raw@));
    }
    out
}

/// The tokens joined with one space between neighbours.
pub fn join_with_spaces(ts: &Vec<Vec<char>>, from: usize) -> (r: Vec<char>)
    requires
        from <= ts@.len(),
    ensures
        r@ == join_spaced(seqs_of(ts@).skip(from as int)),
{
    let mut r: Vec<char> = Vec::new();
    let mut k: usize = from;
    proof {
        assert(seqs_of(ts@).subrange(from as int, from as int) =~= Seq::<Seq<char>>::empty());
    }
    while k < ts.len()
        invariant
            from <= k <= ts@.len(),
            r@ == join_spaced(seqs_of(ts@).subrange(from as int, k as int)),
        decreases ts@.len() - k,
    {
        let ghost before = r@;
        let ghost part = seqs_of(ts@).subrange(from as int, k + 1);
        proof {
            assert(part.drop_last() =~= seqs_of(ts@).subrange(from as int, k as int));
            assert(part.last() == ts@[k as int]@);
        }
        if k > from {
            r.push(' ');
        }
        let t = &ts[k];
        let mut j: usize = 0;
        while j < t.len()
            invariant
                j <= t@.len(),
                k > from ==> r@ == before + seq![' '] + t@.take(j as int),
                k == from ==> r@ == before + t@.take(j as int),
            decreases t@.len() - j,
        {
            r.push(t[j]);
            j += 1;
            proof {
                assert(t@.take(j as int) =~= t@.take(j - 1).push(t@[j - 1]));
            }
        }
        proof {
            assert(t@.take(t@.len() as int) =~= t@);
            if k == from {
                assert(before =~= Seq::<char>::empty());
                assert(r@ =~= t@);
            }
        }
        k += 1;
    }
    proof {
        assert(seqs_of(ts@).subrange(from as int, ts@.len() as int) =~= seqs_of(ts@).skip(
            from as int,
        ));
    }
    r
}

/// The characters of `s` that are not white space, each as a token: the
/// tokens of `s` around an empty separator.
fn char_tokens(s: &Vec<char>) -> (r: Vec<Vec<char>>)
    ensures
        seqs_of(r@) == kept_tokens(char_pieces(s@)),
{
    let mut out: Vec<Vec<char>> = Vec::new();
    let mut i: usize = 0;
    let ghost e = Seq::<char>::empty();
    let ghost singles = s@.map_values(|c: char| seq![c]);
    proof {
        assert(kept_tokens(Seq::<Seq<char>>::empty()) =~= Seq::<Seq<char>>::empty());
        let first = seq![e];
        assert(first.drop_last() =~= Seq::<Seq<char>>::empty());
        assert(trim_start(e) == e);
        assert(kept_tokens(first) =~= Seq::<Seq<char>>::empty());
        assert(seq![e] + singles.take(0) =~= first);
    }
    while i < s.len()
        invariant
            i <= s@.len(),
            e == Seq::<char>::empty(),
            singles == s@.map_values(|c: char| seq![c]),
            seqs_of(out@) == kept_tokens(seq![e] + singles.take(i as int)),
        decreases s@.len() - i,
    {
        let c = s[i];
        let ghost before = out@;
        let ghost ps = seq![e] + singles.take(i + 1);
        proof {
            assert(ps.drop_last() =~= seq![e] + singles.take(i as int));
            assert(ps.last() == seq![c]);
        }
        if !is_white_char(c) {
            let mut t: Vec<char> = Vec::new();
            t.push(c);
            proof {
                assert(t@ =~= seq![c]);
                assert(trim(seq![c]) == seq![c]);
            }
            out.push(t);
            proof {
                assert(seqs_of(out@) =~= seqs_of(before).push(seq![c]));
            }
        } else {
            proof {
                let one = seq![c];
                assert(one.skip(1) =~= Seq::<char>::empty());
                assert(trim_start(one.skip(1)) == Seq::<char>::empty());
                assert(trim(one) == Seq::<char>::empty());
            }
        }
        i += 1;
    }
    proof {
        let ps = char_pieces(s@);
        assert(singles.take(s@.len() as int) =~= singles);
        assert(ps.drop_last() =~= seq![e] + singles);
        assert(ps.last() == e);
        assert(trim_start(e) == e);
    }
    out
}

/// Splits `line` at every occurrence of `pat`, trims each piece and keeps
/// the pieces that are not empty; an empty `pat` matches around every
/// character.
pub fn split_sparse_tokens_str(line: &str, pat: &str) -> (r: Vec<String>)
    ensures
        strings_of(r@) == sparse_tokens(line@, pat@),
{
    let s = chars_of(line);
    let sep = chars_of(pat);
    let toks = if sep.len() == 0 {
        char_tokens(&s)
    } else {
        sparse_split(&s, &sep)
    };
    to_strings(&toks)
}

/// Splits `line` at every occurrence of `pat`, trims each piece and keeps
/// the pieces that are not empty.
pub fn split_sparse_tokens(line: &str, pat: char) -> (r: Vec<String>)
    ensures
        strings_of(r@) == sparse_tokens(line@, seq![pat]),
{
    let s = chars_of(line);
    let mut sep: Vec<char> = Vec::new();
    sep.push(pat);
    let toks = sparse_split(&s, &sep);
    to_strings(&toks)
}

fn to_strings(v: &Vec<Vec<char>>) -> (r: Vec<String>)
    ensures
        strings_of(r@) == seqs_of(v@),
{
    let mut r: Vec<String> = Vec::new();
    let mut k: usize = 0;
    while k < v.len()
        invariant
            k <= v@.len(),
            strings_of(r@) == seqs_of(v@).take(k as int),
        decreases v@.len() - k,
    {
        let s = string_of(&v[k]);
        let ghost before = r@;
        r.push(s);
        proof {
            assert(r@ == before.push(s));
            assert(strings_of(r@) =~= strings_of(before).push(s@));
            assert(seqs_of(v@).take(k + 1) =~= seqs_of(v@).take(k as int).push(v@[k as int]@));
        }
        k += 1;
    }
    proof {
        assert(seqs_of(v@).take(v@.len() as int) =~= seqs_of(v@));
    }
    r
}

} // verus!
