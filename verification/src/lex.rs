//! Line- and token-level primitives over byte buffers: whitespace trimming,
//! substring search, and separator splitting, each proved against a spec-level
//! model of the same operation.

use vstd::prelude::*;

verus! {

/// ASCII whitespace: space, tab, line feed, form feed, carriage return.
pub open spec fn is_ws(b: u8) -> bool {
    b == 32u8 || b == 9u8 || b == 10u8 || b == 12u8 || b == 13u8
}

/// `s` without its leading whitespace.
pub open spec fn trim_front(s: Seq<u8>) -> Seq<u8>
    decreases s.len(),
{
    if s.len() > 0 && is_ws(s[0]) {
        trim_front(s.drop_first())
    } else {
        s
    }
}

/// `s` without its trailing whitespace.
pub open spec fn trim_back(s: Seq<u8>) -> Seq<u8>
    decreases s.len(),
{
    if s.len() > 0 && is_ws(s.last()) {
        trim_back(s.drop_last())
    } else {
        s
    }
}

/// `s` without leading and trailing whitespace.
pub open spec fn trimmed(s: Seq<u8>) -> Seq<u8> {
    trim_back(trim_front(s))
}

/// The pattern `p` occurs in `s` at position `i`.
pub open spec fn matches_at(s: Seq<u8>, p: Seq<u8>, i: int) -> bool {
    &&& 0 <= i
    &&& i + p.len() <= s.len()
    &&& forall|k: int| 0 <= k < p.len() ==> s[i + k] == p[k]
}

/// Executable mirror of [`is_ws`].
pub fn is_ws_byte(b: u8) -> (r: bool)
    ensures
        r == is_ws(b),
{
    b == 32 || b == 9 || b == 10 || b == 12 || b == 13
}

/// Narrows `[lo, hi)` to the subrange that holds `trimmed` of its content.
pub fn trim_range(s: &[u8], lo: usize, hi: usize) -> (r: (usize, usize))
    requires
        lo <= hi <= s@.len(),
    ensures
        lo <= r.0 <= r.1 <= hi,
        s@.subrange(r.0 as int, r.1 as int) == trimmed(s@.subrange(lo as int, hi as int)),
{
    let mut a = lo;
    while a < hi && is_ws_byte(s[a])
        invariant
            lo <= a <= hi <= s@.len(),
            trim_front(s@.subrange(a as int, hi as int)) == trim_front(
                s@.subrange(lo as int, hi as int),
            ),
        decreases hi - a,
    {
        proof {
            let cur = s@.subrange(a as int, hi as int);
            assert(cur.drop_first() =~= s@.subrange(a + 1, hi as int));
        }
        a = a + 1;
    }
    proof {
        let cur = s@.subrange(a as int, hi as int);
        assert(trim_front(cur) == cur);
    }
    let mut b = hi;
    while b > a && is_ws_byte(s[b - 1])
        invariant
            lo <= a <= b <= hi <= s@.len(),
            trim_back(s@.subrange(a as int, b as int)) == trim_back(
                s@.subrange(a as int, hi as int),
            ),
        decreases b,
    {
        proof {
            let cur = s@.subrange(a as int, b as int);
            assert(cur.drop_last() =~= s@.subrange(a as int, b - 1));
        }
        b = b - 1;
    }
    proof {
        let cur = s@.subrange(a as int, b as int);
        assert(trim_back(cur) == cur);
    }
    (a, b)
}

/// Copies the subrange `[lo, hi)` of `s` into an owned vector.
pub fn copy_range(s: &[u8], lo: usize, hi: usize) -> (v: Vec<u8>)
    requires
        lo <= hi <= s@.len(),
    ensures
        v@ == s@.subrange(lo as int, hi as int),
{
    let mut v: Vec<u8> = Vec::new();
    let mut i = lo;
    while i < hi
        invariant
            lo <= i <= hi <= s@.len(),
            v@ == s@.subrange(lo as int, i as int),
        decreases hi - i,
    {
        v.push(s[i]);
        proof {
            assert(s@.subrange(lo as int, i + 1) =~= s@.subrange(lo as int, i as int).push(
                s@[i as int],
            ));
        }
        i = i + 1;
    }
    v
}

/// Copies `[lo, hi)` of `s` with surrounding whitespace removed.
pub fn trim_copy(s: &[u8], lo: usize, hi: usize) -> (v: Vec<u8>)
    requires
        lo <= hi <= s@.len(),
    ensures
        v@ == trimmed(s@.subrange(lo as int, hi as int)),
{
    let (a, b) = trim_range(s, lo, hi);
    copy_range(s, a, b)
}

/// Whether `p` occurs in `s` at position `i`.
pub fn match_at(s: &[u8], p: &[u8], i: usize) -> (r: bool)
    requires
        i <= s@.len(),
    ensures
        r == matches_at(s@, p@, i as int),
{
    let n = s.len();
    let m = p.len();
    if n - i < m {
        return false;
    }
    let mut k: usize = 0;
    while k < m
        invariant
            m == p@.len(),
            i + m <= n == s@.len(),
            k <= m,
            forall|j: int| 0 <= j < k ==> s@[i + j] == p@[j],
        decreases m - k,
    {
        if s[i + k] != p[k] {
            return false;
        }
        k = k + 1;
    }
    true
}

/// The first occurrence of `p` in `s` at or after `from`, if any.
pub fn find_pat(s: &[u8], from: usize, p: &[u8]) -> (r: Option<usize>)
    requires
        from <= s@.len(),
        p@.len() >= 1,
    ensures
        match r {
            Some(i) => from <= i && i + p@.len() <= s@.len() && matches_at(s@, p@, i as int)
                && forall|j: int| from <= j < i ==> !matches_at(s@, p@, j),
            None => forall|j: int| from <= j ==> !matches_at(s@, p@, j),
        },
{
    let n = s.len();
    let m = p.len();
    if m > n {
        return None;
    }
    let last = n - m;
    let mut i = from;
    while i <= last
        invariant
            from <= i,
            n == s@.len(),
            m == p@.len(),
            last == n - m,
            m >= 1,
            last < usize::MAX,
            forall|j: int| from <= j < i ==> !matches_at(s@, p@, j),
        decreases last + 1 - i,
    {
        if match_at(s, p, i) {
            return Some(i);
        }
        i = i + 1;
    }
    None
}

/// Index of the first occurrence of `sep` in `s`, or `s.len()` if absent.
pub open spec fn sep_end(s: Seq<u8>, sep: u8) -> nat
    decreases s.len(),
{
    if s.len() == 0 {
        0
    } else if s[0] == sep {
        0
    } else {
        1 + sep_end(s.drop_first(), sep)
    }
}

pub proof fn lemma_sep_end(s: Seq<u8>, sep: u8)
    ensures
        sep_end(s, sep) <= s.len(),
        forall|k: int| 0 <= k < sep_end(s, sep) ==> s[k] != sep,
        sep_end(s, sep) < s.len() ==> s[sep_end(s, sep) as int] == sep,
    decreases s.len(),
{
    if s.len() > 0 && s[0] != sep {
        lemma_sep_end(s.drop_first(), sep);
        assert forall|k: int| 0 <= k < sep_end(s, sep) implies s[k] != sep by {
            if k > 0 {
                assert(s.drop_first()[k - 1] != sep);
            }
        }
    }
}

/// `sep_end` is determined by where the separator first occurs.
pub proof fn lemma_sep_end_val(s: Seq<u8>, sep: u8, e: int)
    requires
        0 <= e <= s.len(),
        forall|k: int| 0 <= k < e ==> s[k] != sep,
        e < s.len() ==> s[e] == sep,
    ensures
        sep_end(s, sep) == e,
    decreases s.len(),
{
    if e == 0 {
    } else {
        assert(s[0] != sep);
        let t = s.drop_first();
        assert forall|k: int| 0 <= k < e - 1 implies t[k] != sep by {
            assert(t[k] == s[k + 1]);
        }
        lemma_sep_end_val(t, sep, e - 1);
    }
}

/// The nonempty runs of `s` between occurrences of `sep`, in order.
pub open spec fn fields(s: Seq<u8>, sep: u8) -> Seq<Seq<u8>>
    decreases s.len(),
    via fields_dec
{
    if s.len() == 0 {
        Seq::empty()
    } else if s[0] == sep {
        fields(s.drop_first(), sep)
    } else {
        seq![s.take(sep_end(s, sep) as int)] + fields(s.skip(sep_end(s, sep) as int), sep)
    }
}

#[via_fn]
proof fn fields_dec(s: Seq<u8>, sep: u8) {
    lemma_sep_end(s, sep);
}

/// Splits `[lo, hi)` of `s` at `sep`, returning the nonempty runs as owned
/// vectors.
pub fn split_fields(s: &[u8], lo: usize, hi: usize, sep: u8) -> (r: Vec<Vec<u8>>)
    requires
        lo <= hi <= s@.len(),
    ensures
        views_of(r@) == fields(s@.subrange(lo as int, hi as int), sep),
{
    let ghost whole = s@.subrange(lo as int, hi as int);
    let mut out: Vec<Vec<u8>> = Vec::new();
    let mut pos = lo;
    while pos < hi
        invariant
            lo <= pos <= hi <= s@.len(),
            whole == s@.subrange(lo as int, hi as int),
            fields(whole, sep) == out@.map_values(|t: Vec<u8>| t@) + fields(
                s@.subrange(pos as int, hi as int),
                sep,
            ),
        decreases hi - pos,
    {
        let ghost cur = s@.subrange(pos as int, hi as int);
        if s[pos] == sep {
            proof {
                assert(cur.drop_first() =~= s@.subrange(pos + 1, hi as int));
            }
            pos = pos + 1;
        } else {
            let e = match find_byte(s, pos, hi, sep) {
                Some(q) => q,
                None => hi,
            };
            let tok = copy_range(s, pos, e);
            proof {
                assert forall|k: int| 0 <= k < e - pos implies cur[k] != sep by {
                    assert(cur[k] == s@[pos + k]);
                }
                assert(e < hi ==> cur[e - pos] == s@[e as int]);
                lemma_sep_end_val(cur, sep, e - pos);
                assert(cur.take(e - pos) =~= s@.subrange(pos as int, e as int));
                assert(cur.skip(e - pos) =~= s@.subrange(e as int, hi as int));
                assert(fields(cur, sep) == seq![tok@] + fields(
                    s@.subrange(e as int, hi as int),
                    sep,
                ));
                assert((out@.push(tok)).map_values(|t: Vec<u8>| t@) =~= out@.map_values(
                    |t: Vec<u8>| t@,
                ).push(tok@));
                assert(out@.map_values(|t: Vec<u8>| t@).push(tok@) + fields(
                    s@.subrange(e as int, hi as int),
                    sep,
                ) =~= out@.map_values(|t: Vec<u8>| t@) + (seq![tok@] + fields(
                    s@.subrange(e as int, hi as int),
                    sep,
                )));
            }
            out.push(tok);
            pos = e;
        }
    }
    proof {
        assert(s@.subrange(pos as int, hi as int) =~= Seq::<u8>::empty());
        assert(fields(Seq::<u8>::empty(), sep) == Seq::<Seq<u8>>::empty());
        assert(fields(whole, sep) =~= out@.map_values(|t: Vec<u8>| t@));
    }
    out
}

/// The first occurrence of byte `b` in `s` within `[from, hi)`, if any.
pub fn find_byte(s: &[u8], from: usize, hi: usize, b: u8) -> (r: Option<usize>)
    requires
        from <= hi <= s@.len(),
    ensures
        match r {
            Some(i) => from <= i < hi && s@[i as int] == b && forall|j: int|
                from <= j < i ==> s@[j] != b,
            None => forall|j: int| from <= j < hi ==> s@[j] != b,
        },
{
    let mut i = from;
    while i < hi
        invariant
            from <= i <= hi <= s@.len(),
            forall|j: int| from <= j < i ==> s@[j] != b,
        decreases hi - i,
    {
        if s[i] == b {
            return Some(i);
        }
        i = i + 1;
    }
    None
}

/// The element views of a sequence of byte vectors.
pub open spec fn views_of(s: Seq<Vec<u8>>) -> Seq<Seq<u8>> {
    s.map_values(|v: Vec<u8>| v@)
}

pub proof fn lemma_views_of_push(s: Seq<Vec<u8>>, v: Vec<u8>)
    ensures
        views_of(s.push(v)) == views_of(s).push(v@),
{
    assert(views_of(s.push(v)) =~= views_of(s).push(v@));
}

/// The element views of a sequence of byte-vector pairs.
pub open spec fn pair_views(s: Seq<(Vec<u8>, Vec<u8>)>) -> Seq<(Seq<u8>, Seq<u8>)> {
    s.map_values(|p: (Vec<u8>, Vec<u8>)| (p.0@, p.1@))
}

pub proof fn lemma_pair_views_push(s: Seq<(Vec<u8>, Vec<u8>)>, p: (Vec<u8>, Vec<u8>))
    ensures
        pair_views(s.push(p)) == pair_views(s).push((p.0@, p.1@)),
{
    assert(pair_views(s.push(p)) =~= pair_views(s).push((p.0@, p.1@)));
}

/// A sequence of machine offsets as mathematical integers.
pub open spec fn ints_of(s: Seq<usize>) -> Seq<int> {
    s.map_values(|x: usize| x as int)
}

pub proof fn lemma_ints_of_push(s: Seq<usize>, x: usize)
    ensures
        ints_of(s.push(x)) == ints_of(s).push(x as int),
{
    assert(ints_of(s.push(x)) =~= ints_of(s).push(x as int));
}

/// The first position at or after `from` where `p` occurs in `s`, if any.
pub open spec fn first_match(s: Seq<u8>, p: Seq<u8>, from: int) -> Option<int>
    decreases s.len() + 1 - from,
{
    if from > s.len() {
        None
    } else if matches_at(s, p, from) {
        Some(from)
    } else {
        first_match(s, p, from + 1)
    }
}

/// `first_match` agrees with a found occurrence that nothing precedes.
pub proof fn lemma_first_match_val(s: Seq<u8>, p: Seq<u8>, from: int, i: int)
    requires
        from <= i,
        matches_at(s, p, i),
        forall|j: int| from <= j < i ==> !matches_at(s, p, j),
    ensures
        first_match(s, p, from) == Some(i),
    decreases s.len() + 1 - from,
{
    if from < i {
        lemma_first_match_val(s, p, from + 1, i);
    }
}

/// `first_match` agrees with an exhaustive failed search.
pub proof fn lemma_first_match_none(s: Seq<u8>, p: Seq<u8>, from: int)
    requires
        forall|j: int| from <= j ==> !matches_at(s, p, j),
    ensures
        first_match(s, p, from) == None::<int>,
    decreases s.len() + 1 - from,
{
    if from <= s.len() {
        lemma_first_match_none(s, p, from + 1);
    }
}

/// The largest `j < i` with `s[j] == 10` (line feed), or `-1` if none.
pub open spec fn last_nl_before(s: Seq<u8>, i: int) -> int
    decreases i,
{
    if i <= 0 {
        -1
    } else if s[i - 1] == 10 {
        i - 1
    } else {
        last_nl_before(s, i - 1)
    }
}

pub proof fn lemma_last_nl_before(s: Seq<u8>, i: int)
    requires
        0 <= i <= s.len(),
    ensures
        -1 <= last_nl_before(s, i) < i,
        last_nl_before(s, i) >= 0 ==> s[last_nl_before(s, i)] == 10,
        forall|j: int| last_nl_before(s, i) < j < i ==> s[j] != 10,
    decreases i,
{
    if i > 0 && s[i - 1] != 10 {
        lemma_last_nl_before(s, i - 1);
    }
}

/// ASCII lowercase of a byte sequence.
pub open spec fn lower(s: Seq<u8>) -> Seq<u8> {
    s.map_values(
        |b: u8|
            if 65 <= b <= 90 {
                (b + 32) as u8
            } else {
                b
            },
    )
}

/// Executable ASCII lowercasing.
pub fn to_lower(s: &[u8]) -> (r: Vec<u8>)
    ensures
        r@ == lower(s@),
{
    let mut r: Vec<u8> = Vec::new();
    let mut i: usize = 0;
    while i < s.len()
        invariant
            i <= s@.len(),
            r@ == lower(s@.subrange(0, i as int)),
        decreases s@.len() - i,
    {
        let b = s[i];
        if 65 <= b && b <= 90 {
            r.push(b + 32);
        } else {
            r.push(b);
        }
        proof {
            assert(lower(s@.subrange(0, i + 1)) =~= lower(s@.subrange(0, i as int)).push(
                if 65 <= s@[i as int] <= 90 {
                    (s@[i as int] + 32) as u8
                } else {
                    s@[i as int]
                },
            ));
        }
        i = i + 1;
    }
    proof {
        assert(s@.subrange(0, s@.len() as int) =~= s@);
    }
    r
}

/// Whether two byte slices hold the same bytes.
pub fn eq_bytes(a: &[u8], b: &[u8]) -> (r: bool)
    ensures
        r == (a@ == b@),
{
    if a.len() != b.len() {
        proof {
            assert(a@.len() != b@.len());
        }
        return false;
    }
    let mut i: usize = 0;
    while i < a.len()
        invariant
            a@.len() == b@.len(),
            i <= a@.len(),
            forall|j: int| 0 <= j < i ==> a@[j] == b@[j],
        decreases a@.len() - i,
    {
        if a[i] != b[i] {
            return false;
        }
        i = i + 1;
    }
    proof {
        assert(a@ =~= b@);
    }
    true
}

/// Appends all of `src` to `dst`.
pub fn push_bytes(dst: &mut Vec<u8>, src: &[u8])
    ensures
        final(dst)@ == old(dst)@ + src@,
{
    let mut i: usize = 0;
    while i < src.len()
        invariant
            i <= src@.len(),
            dst@ == old(dst)@ + src@.subrange(0, i as int),
        decreases src@.len() - i,
    {
        dst.push(src[i]);
        proof {
            assert(old(dst)@ + src@.subrange(0, i + 1) =~= (old(dst)@ + src@.subrange(
                0,
                i as int,
            )).push(src@[i as int]));
        }
        i = i + 1;
    }
    proof {
        assert(old(dst)@ + src@.subrange(0, src@.len() as int) =~= old(dst)@ + src@);
    }
}

/// An ASCII decimal digit.
pub open spec fn is_digit(b: u8) -> bool {
    48 <= b <= 57
}

/// The value of a decimal digit string, most significant digit first.
pub open spec fn digits_val(s: Seq<u8>) -> int
    decreases s.len(),
{
    if s.len() == 0 {
        0
    } else {
        digits_val(s.drop_last()) * 10 + (s.last() - 48)
    }
}

proof fn lemma_digits_val_nonneg(s: Seq<u8>)
    requires
        forall|k: int| 0 <= k < s.len() ==> is_digit(s[k]),
    ensures
        digits_val(s) >= 0,
    decreases s.len(),
{
    if s.len() > 0 {
        assert(forall|k: int| 0 <= k < s.drop_last().len() ==> is_digit(s.drop_last()[k]));
        lemma_digits_val_nonneg(s.drop_last());
    }
}

proof fn lemma_digits_val_mono(s: Seq<u8>, j: int)
    requires
        0 <= j <= s.len(),
        forall|k: int| 0 <= k < s.len() ==> is_digit(s[k]),
    ensures
        digits_val(s.take(j)) <= digits_val(s),
    decreases s.len() - j,
{
    if j < s.len() {
        lemma_digits_val_mono(s, j + 1);
        assert(s.take(j + 1).drop_last() =~= s.take(j));
        assert(digits_val(s.take(j + 1)) == digits_val(s.take(j)) * 10 + (s.take(j + 1).last()
            - 48));
        assert(forall|k: int| 0 <= k < s.take(j).len() ==> is_digit(s.take(j)[k]));
        lemma_digits_val_nonneg(s.take(j));
    } else {
        assert(s.take(j) =~= s);
    }
}

/// Parses the decimal digit run `[lo, hi)` of `s` as a `usize`, detecting
/// overflow as the standard library's integer parsing does.
pub fn parse_number(s: &[u8], lo: usize, hi: usize) -> (r: Option<usize>)
    requires
        lo <= hi <= s@.len(),
        forall|k: int| lo <= k < hi ==> is_digit(s@[k]),
    ensures
        ({
            let d = s@.subrange(lo as int, hi as int);
            if digits_val(d) > usize::MAX {
                r == None::<usize>
            } else {
                r == Some(digits_val(d) as usize)
            }
        }),
{
    let ghost d = s@.subrange(lo as int, hi as int);
    let mut acc: usize = 0;
    let mut i = lo;
    while i < hi
        invariant
            lo <= i <= hi <= s@.len(),
            d == s@.subrange(lo as int, hi as int),
            forall|k: int| lo <= k < hi ==> is_digit(s@[k]),
            acc == digits_val(d.take(i - lo)),
        decreases hi - i,
    {
        let b = s[i];
        proof {
            assert(is_digit(s@[i as int]));
            assert(d.take(i - lo + 1).drop_last() =~= d.take(i - lo));
            assert(d.take(i - lo + 1).last() == s@[i as int]);
        }
        if acc > (usize::MAX - (b - 48) as usize) / 10 {
            proof {
                assert(digits_val(d.take(i - lo + 1)) == acc * 10 + (b - 48));
                assert(acc * 10 + (b - 48) > usize::MAX) by (nonlinear_arith)
                    requires
                        acc > (usize::MAX - (b - 48) as usize) / 10,
                        48 <= b <= 57,
                ;
                lemma_digits_val_mono(d, i - lo + 1);
            }
            return None;
        }
        proof {
            assert(acc * 10 + (b - 48) <= usize::MAX) by (nonlinear_arith)
                requires
                    acc <= (usize::MAX - (b - 48) as usize) / 10,
                    48 <= b <= 57,
            ;
        }
        acc = acc * 10 + (b - 48) as usize;
        i = i + 1;
    }
    proof {
        assert(d.take(hi - lo) =~= d);
    }
    Some(acc)
}

/// The decimal digit string of `n`, without leading zeros.
pub open spec fn dec_rep(n: nat) -> Seq<u8>
    decreases n,
{
    if n < 10 {
        seq![(48 + n) as u8]
    } else {
        dec_rep(n / 10).push((48 + n % 10) as u8)
    }
}

/// Renders `n` in decimal.
pub fn render_dec(n: usize) -> (v: Vec<u8>)
    ensures
        v@ == dec_rep(n as nat),
    decreases n,
{
    if n < 10 {
        let mut v: Vec<u8> = Vec::new();
        v.push(48 + (n as u8));
        v
    } else {
        proof {
            assert(n / 10 < n) by (nonlinear_arith)
                requires
                    n >= 10,
            ;
        }
        let mut v = render_dec(n / 10);
        v.push(48 + ((n % 10) as u8));
        v
    }
}

} // verus!

