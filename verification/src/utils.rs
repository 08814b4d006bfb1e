//! Archive splitting: finds the offsets at which messages begin and slices
//! the archive into per-message spans, proved to reconstruct the input
//! exactly. Also holds the color model used by rendering preferences.
//!
//! A message boundary is the start of any line that begins with `From `
//! (its preceding byte is a line feed). The digest-style separator — a `--`
//! line, a digits line and a blank line directly before a `From ` line —
//! places its boundary at the start of that same `From ` line, so the single
//! `\nFrom ` search covers both boundary grammars.

use vstd::prelude::*;

use crate::lex::{copy_range, find_pat, ints_of, lemma_ints_of_push, lemma_views_of_push, matches_at, views_of};
use crate::lit::{nl_from_lit, nl_from_pat};

verus! {

/// Position `p` starts a new message (a `From ` line begins there).
pub open spec fn is_boundary(s: Seq<u8>, p: int) -> bool {
    0 < p && matches_at(s, nl_from_lit(), p - 1)
}

/// All boundaries at or after `from`, in ascending order.
pub open spec fn starts_from(s: Seq<u8>, from: int) -> Seq<int>
    decreases s.len() + 1 - from,
{
    if from > s.len() {
        Seq::empty()
    } else if is_boundary(s, from) {
        seq![from] + starts_from(s, from + 1)
    } else {
        starts_from(s, from + 1)
    }
}

/// The offsets at which messages begin: offset zero, then every boundary.
pub open spec fn message_starts(s: Seq<u8>) -> Seq<int> {
    seq![0] + starts_from(s, 1)
}

/// The per-message spans: from each start to the next, or to the end.
pub open spec fn spans_from(s: Seq<u8>, start: int, rest: Seq<int>) -> Seq<Seq<u8>>
    decreases rest.len(),
{
    if rest.len() == 0 {
        seq![s.subrange(start, s.len() as int)]
    } else {
        seq![s.subrange(start, rest[0])] + spans_from(s, rest[0], rest.drop_first())
    }
}

/// The ordered message spans of an archive.
pub open spec fn spans_of(s: Seq<u8>) -> Seq<Seq<u8>> {
    spans_from(s, 0, starts_from(s, 1))
}

proof fn lemma_starts_skip(s: Seq<u8>, a: int, b: int)
    requires
        a <= b,
        forall|p: int| a <= p < b ==> !is_boundary(s, p),
    ensures
        starts_from(s, a) == starts_from(s, b),
    decreases b - a,
{
    if a < b {
        if a > s.len() {
            assert(b > s.len());
            lemma_starts_skip(s, a + 1, b);
        } else {
            lemma_starts_skip(s, a + 1, b);
        }
    }
}

proof fn lemma_starts_from_props(s: Seq<u8>, from: int)
    requires
        from >= 1,
    ensures
        forall|i: int|
            0 <= i < starts_from(s, from).len() ==> from <= #[trigger] starts_from(s, from)[i]
                <= s.len(),
        forall|i: int, j: int|
            0 <= i <= j < starts_from(s, from).len() ==> #[trigger] starts_from(s, from)[i]
                <= #[trigger] starts_from(s, from)[j],
    decreases s.len() + 1 - from,
{
    if from <= s.len() {
        lemma_starts_from_props(s, from + 1);
        let r = starts_from(s, from);
        let t = starts_from(s, from + 1);
        if is_boundary(s, from) {
            assert(r == seq![from] + t);
            assert forall|i: int| 0 <= i < r.len() implies from <= #[trigger] r[i] <= s.len() by {
                if i > 0 {
                    assert(r[i] == t[i - 1]);
                }
            }
            assert forall|i: int, j: int| 0 <= i <= j < r.len() implies #[trigger] r[i]
                <= #[trigger] r[j] by {
                if i > 0 {
                    assert(r[i] == t[i - 1]);
                }
                if j > 0 {
                    assert(r[j] == t[j - 1]);
                }
            }
        }
    }
}

proof fn lemma_spans_from_flatten(s: Seq<u8>, start: int, rest: Seq<int>)
    requires
        0 <= start <= s.len(),
        forall|i: int| 0 <= i < rest.len() ==> start <= #[trigger] rest[i] <= s.len(),
        forall|i: int, j: int|
            0 <= i <= j < rest.len() ==> #[trigger] rest[i] <= #[trigger] rest[j],
    ensures
        spans_from(s, start, rest).flatten() == s.subrange(start, s.len() as int),
    decreases rest.len(),
{
    if rest.len() == 0 {
        let sp = spans_from(s, start, rest);
        assert(sp.drop_first().flatten() == Seq::<u8>::empty());
        assert(sp.flatten() =~= s.subrange(start, s.len() as int));
    } else {
        let r0 = rest[0];
        let tail = rest.drop_first();
        assert forall|i: int| 0 <= i < tail.len() implies r0 <= #[trigger] tail[i] <= s.len() by {
            assert(tail[i] == rest[i + 1]);
            assert(rest[0] <= rest[i + 1]);
        }
        assert forall|i: int, j: int| 0 <= i <= j < tail.len() implies #[trigger] tail[i]
            <= #[trigger] tail[j] by {
            assert(tail[i] == rest[i + 1]);
            assert(tail[j] == rest[j + 1]);
        }
        lemma_spans_from_flatten(s, r0, tail);
        let sp = spans_from(s, start, rest);
        assert(sp.first() == s.subrange(start, r0));
        assert(sp.drop_first() =~= spans_from(s, r0, tail));
        assert(sp.flatten() == s.subrange(start, r0) + spans_from(s, r0, tail).flatten());
        assert(s.subrange(start, r0) + s.subrange(r0, s.len() as int) =~= s.subrange(
            start,
            s.len() as int,
        ));
    }
}

/// Splitting loses nothing: the concatenation of the spans that
/// [`capture_messages`] yields is exactly the archive.
pub proof fn lemma_spans_reconstruct(s: Seq<u8>)
    ensures
        spans_of(s).flatten() == s,
{
    lemma_starts_from_props(s, 1);
    lemma_spans_from_flatten(s, 0, starts_from(s, 1));
    assert(s.subrange(0, s.len() as int) =~= s);
}

/// The offsets at which messages begin: offset zero, then the start of every
/// `From ` line that follows a line feed, in ascending order.
pub fn find_messages(input: &[u8]) -> (r: Vec<usize>)
    ensures
        ints_of(r@) == message_starts(input@),
        r@.len() >= 1,
{
    let ghost s = input@;
    let n = input.len();
    let mut r: Vec<usize> = Vec::new();
    r.push(0);
    let pat = nl_from_pat();
    let mut from: usize = 0;
    proof {
        assert(ints_of(r@) =~= seq![0int]);
    }
    loop
        invariant
            s == input@,
            n == s.len(),
            pat@ == nl_from_lit(),
            from <= n,
            r@.len() >= 1,
            message_starts(s) == ints_of(r@) + starts_from(s, from + 1),
        ensures
            r@.len() >= 1,
            message_starts(s) == ints_of(r@),
        decreases s.len() - from,
    {
        match find_pat(input, from, pat.as_slice()) {
            Some(i) => {
                proof {
                    assert(i + nl_from_lit().len() <= n);
                    assert(i + 1 <= n);
                }
                let b = i + 1;
                proof {
                    assert forall|p: int| from + 1 <= p < b implies !is_boundary(s, p) by {
                        assert(!matches_at(s, nl_from_lit(), p - 1));
                    }
                    lemma_starts_skip(s, from + 1, b as int);
                    assert(is_boundary(s, b as int));
                    assert(starts_from(s, b as int) == seq![b as int] + starts_from(
                        s,
                        b as int + 1,
                    ));
                    lemma_ints_of_push(r@, b);
                    assert(ints_of(r@).push(b as int) + starts_from(s, b as int + 1)
                        =~= ints_of(r@) + (seq![b as int] + starts_from(s, b as int + 1)));
                }
                r.push(b);
                from = b;
            },
            None => {
                proof {
                    assert forall|p: int| from + 1 <= p implies !is_boundary(s, p) by {
                        assert(!matches_at(s, nl_from_lit(), p - 1));
                    }
                    lemma_starts_skip(s, from + 1, s.len() as int + 1);
                    assert(starts_from(s, s.len() as int + 1) == Seq::<int>::empty());
                    assert(ints_of(r@) + Seq::<int>::empty() =~= ints_of(r@));
                }
                break ;
            },
        }
    }
    r
}

/// Slices the archive into its ordered message spans, one owned vector per
/// message; their concatenation is exactly the archive.
pub fn capture_messages(input: &[u8]) -> (r: Vec<Vec<u8>>)
    ensures
        views_of(r@) == spans_of(input@),
        views_of(r@).flatten() == input@,
        r@.len() >= 1,
{
    let ghost s = input@;
    let starts = find_messages(input);
    let ghost sts = message_starts(s);
    proof {
        lemma_starts_from_props(s, 1);
        assert(sts.drop_first() =~= starts_from(s, 1));
        assert(forall|i: int| 0 <= i < sts.len() ==> 0 <= #[trigger] sts[i] <= s.len());
        assert(forall|i: int| 0 <= i < sts.len() - 1 ==> #[trigger] sts[i] <= sts[i + 1]);
    }
    let mut out: Vec<Vec<u8>> = Vec::new();
    let mut k: usize = 0;
    proof {
        assert(views_of(out@) =~= Seq::<Seq<u8>>::empty());
        assert(sts.skip(1) =~= starts_from(s, 1));
        assert(spans_of(s) == spans_from(s, sts[0], sts.skip(1)));
        assert(Seq::<Seq<u8>>::empty() + spans_from(s, sts[0], sts.skip(1)) =~= spans_from(
            s,
            sts[0],
            sts.skip(1),
        ));
    }
    while k < starts.len()
        invariant
            s == input@,
            ints_of(starts@) == sts,
            sts == message_starts(s),
            forall|i: int| 0 <= i < sts.len() ==> 0 <= #[trigger] sts[i] <= s.len(),
            forall|i: int, j: int|
                0 <= i <= j < sts.len() ==> #[trigger] sts[i] <= #[trigger] sts[j],
            k <= starts@.len(),
            spans_of(s) == views_of(out@) + (if k < sts.len() {
                spans_from(s, sts[k as int], sts.skip(k + 1))
            } else {
                Seq::<Seq<u8>>::empty()
            }),
        decreases starts@.len() - k,
    {
        let lo = starts[k];
        let hi = if k + 1 < starts.len() {
            starts[k + 1]
        } else {
            input.len()
        };
        proof {
            assert(sts[k as int] == lo as int);
            if k + 1 < starts@.len() {
                assert(sts[k + 1] == hi as int);
                assert(sts.skip(k as int + 1)[0] == sts[k + 1]);
            }
            assert(lo <= hi <= s.len());
        }
        let piece = copy_range(input, lo, hi);
        proof {
            let rest = sts.skip(k as int + 1);
            if k + 1 < sts.len() {
                assert(rest.drop_first() =~= sts.skip(k as int + 2));
                assert(spans_from(s, sts[k as int], rest) == seq![s.subrange(lo as int, hi as int)]
                    + spans_from(s, sts[k + 1], sts.skip(k as int + 2)));
            } else {
                assert(rest.len() == 0);
                assert(spans_from(s, sts[k as int], rest) == seq![
                    s.subrange(lo as int, s.len() as int),
                ]);
            }
            lemma_views_of_push(out@, piece);
            if k + 1 < sts.len() {
                assert(views_of(out@).push(piece@) + spans_from(s, sts[k + 1], sts.skip(
                    k as int + 2,
                )) =~= views_of(out@) + (seq![piece@] + spans_from(s, sts[k + 1], sts.skip(
                    k as int + 2,
                ))));
            } else {
                assert(views_of(out@).push(piece@) + Seq::<Seq<u8>>::empty() =~= views_of(out@) + (
                seq![piece@] + Seq::<Seq<u8>>::empty()));
                assert(seq![piece@] + Seq::<Seq<u8>>::empty() =~= seq![piece@]);
            }
        }
        out.push(piece);
        k = k + 1;
    }
    proof {
        assert(spans_of(s) =~= views_of(out@));
        lemma_spans_reconstruct(s);
    }
    out
}

/// A display color choice: either a direct RGB triple or a named terminal
/// color.
#[derive(Clone, Copy, Debug, PartialEq, Eq)]
pub enum Color {
    RGB(u8, u8, u8),
    Term(TermColor),
}

/// The sixteen named terminal colors.
#[derive(Clone, Copy, Debug, PartialEq, Eq)]
pub enum TermColor {
    Black,
    Red,
    Green,
    Yellow,
    Blue,
    Magenta,
    Cyan,
    White,
    BrightBlack,
    BrightRed,
    BrightGreen,
    BrightYellow,
    BrightBlue,
    BrightMagenta,
    BrightCyan,
    BrightWhite,
}

impl Default for TermColor {
    /// The default terminal color is white.
    fn default() -> (c: TermColor)
        ensures
            c == TermColor::White,
    {
        TermColor::White
    }
}

impl Default for Color {
    /// The default color is the default terminal color.
    fn default() -> (c: Color)
        ensures
            c == Color::Term(TermColor::White),
    {
        Color::Term(TermColor::White)
    }
}

impl Color {
    /// Renders `value` under this color choice. Color application is not
    /// implemented yet, so the text is returned unchanged.
    pub fn paint(&self, value: &[u8]) -> (r: Vec<u8>)
        ensures
            r@ == value@,
    {
        let mut r: Vec<u8> = Vec::new();
        crate::lex::push_bytes(&mut r, value);
        r
    }
}

} // verus!
