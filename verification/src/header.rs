//! Typed headers: classification of `key: value` pairs into `From`, `Date`,
//! `Author`, `Subject` or a verbatim fallback, with the `Person` address
//! grammars and the three-way `Subject` grammar.

use vstd::prelude::*;

use crate::err::ParseError;
use crate::lex::{
    dec_rep, digits_val, eq_bytes, find_byte, first_match, is_digit, is_ws,
    lemma_first_match_none, lemma_first_match_val, lemma_sep_end, lemma_sep_end_val,
    lemma_views_of_push, lower, matches_at, parse_number, sep_end, to_lower, trim_back,
    trim_copy, trim_front, trim_range, trimmed, views_of,
};
use crate::lit::{
    at_sep_lit, at_sep_pat, colon_sp_lit, colon_sp_pat, green_off_lit, green_off_pat,
    green_on_lit, green_on_pat, key_author_lit, key_author_pat, key_date_lit, key_date_pat,
    key_from_lit, key_from_pat, key_subject_lit, key_subject_pat, patch_open_lit, patch_open_pat,
    sp_v_lit, sp_v_pat, yellow_off_lit, yellow_off_pat, yellow_on_lit, yellow_on_pat,
};
use crate::time::{parse_rfc2822, rfc2822_instant};

verus! {

/// The mathematical content of a parsed address.
pub struct EmailModel {
    pub user: Seq<u8>,
    pub domain: Seq<u8>,
}

/// An address, split into the part before and after the separator.
#[derive(Debug, Clone, PartialEq, Eq)]
pub struct Email {
    pub user: Vec<u8>,
    pub domain: Vec<u8>,
}

impl View for Email {
    type V = EmailModel;

    open spec fn view(&self) -> EmailModel {
        EmailModel { user: self.user@, domain: self.domain@ }
    }
}

/// Whether `b` occurs in `s`.
pub open spec fn has_byte(s: Seq<u8>, b: u8) -> bool {
    sep_end(s, b) < s.len()
}

/// What parsing an address yields: the text splits at `@` when it has one,
/// else at the literal ` at ` used by obfuscated addresses; exactly two
/// parts are required.
pub open spec fn email_model_of(s: Seq<u8>) -> Result<EmailModel, ParseError> {
    if has_byte(s, 64) {
        let q = sep_end(s, 64) as int;
        if has_byte(s.skip(q + 1), 64) {
            Err(ParseError::InvalidEmail)
        } else {
            Ok(EmailModel { user: s.take(q), domain: s.skip(q + 1) })
        }
    } else {
        match first_match(s, at_sep_lit(), 0) {
            None => Err(ParseError::InvalidEmail),
            Some(i) => {
                if first_match(s.skip(i + 4), at_sep_lit(), 0) is Some {
                    Err(ParseError::InvalidEmail)
                } else {
                    Ok(EmailModel { user: s.take(i), domain: s.skip(i + 4) })
                }
            },
        }
    }
}

/// The model of an address parse result.
pub open spec fn email_result(r: Result<Email, ParseError>) -> Result<EmailModel, ParseError> {
    match r {
        Ok(m) => Ok(m@),
        Err(e) => Err(e),
    }
}

impl Email {
    /// Parses an address from `[lo, hi)` of `s`.
    pub fn parse_range(s: &[u8], lo: usize, hi: usize) -> (r: Result<Email, ParseError>)
        requires
            lo <= hi <= s@.len(),
        ensures
            email_result(r) == email_model_of(s@.subrange(lo as int, hi as int)),
    {
        let ghost t = s@.subrange(lo as int, hi as int);
        match find_byte(s, lo, hi, 64) {
            Some(q) => {
                proof {
                    assert forall|k: int| 0 <= k < q - lo implies t[k] != 64 by {
                        assert(t[k] == s@[lo + k]);
                    }
                    assert(t[q - lo] == s@[q as int]);
                    lemma_sep_end_val(t, 64, q - lo);
                }
                match find_byte(s, q + 1, hi, 64) {
                    Some(_q2) => {
                        proof {
                            let u = t.skip(q - lo + 1);
                            assert forall|k: int| 0 <= k < _q2 - q - 1 implies u[k] != 64 by {
                                assert(u[k] == s@[q + 1 + k]);
                            }
                            assert(u[_q2 - q - 1] == s@[_q2 as int]);
                            lemma_sep_end_val(u, 64, _q2 - q - 1);
                        }
                        return Err(ParseError::InvalidEmail);
                    },
                    None => {
                        proof {
                            let u = t.skip(q - lo + 1);
                            assert forall|k: int| 0 <= k < u.len() implies u[k] != 64 by {
                                assert(u[k] == s@[q + 1 + k]);
                            }
                            lemma_sep_end_val(u, 64, u.len() as int);
                        }
                    },
                }
                let user = crate::lex::copy_range(s, lo, q);
                let domain = crate::lex::copy_range(s, q + 1, hi);
                proof {
                    assert(user@ =~= t.take(q - lo));
                    assert(domain@ =~= t.skip(q - lo + 1));
                }
                Ok(Email { user, domain })
            },
            None => {
                proof {
                    assert forall|k: int| 0 <= k < t.len() implies t[k] != 64 by {
                        assert(t[k] == s@[lo + k]);
                    }
                    lemma_sep_end_val(t, 64, t.len() as int);
                }
                let pat = at_sep_pat();
                match find_pat_range(s, lo, hi, pat.as_slice()) {
                    Some(i) => {
                        proof {
                            lemma_first_match_val(t, at_sep_lit(), 0, i - lo);
                        }
                        match find_pat_range(s, i + 4, hi, pat.as_slice()) {
                            Some(_i2) => {
                                proof {
                                    let u = t.skip(i - lo + 4);
                                    assert(u =~= s@.subrange(i + 4, hi as int));
                                    lemma_first_match_val(u, at_sep_lit(), 0, _i2 - i - 4);
                                }
                                Err(ParseError::InvalidEmail)
                            },
                            None => {
                                proof {
                                    let u = t.skip(i - lo + 4);
                                    assert(u =~= s@.subrange(i + 4, hi as int));
                                    lemma_first_match_none(u, at_sep_lit(), 0);
                                }
                                let user = crate::lex::copy_range(s, lo, i);
                                let domain = crate::lex::copy_range(s, i + 4, hi);
                                proof {
                                    assert(user@ =~= t.take(i - lo));
                                    assert(domain@ =~= t.skip(i - lo + 4));
                                }
                                Ok(Email { user, domain })
                            },
                        }
                    },
                    None => {
                        proof {
                            lemma_first_match_none(t, at_sep_lit(), 0);
                        }
                        Err(ParseError::InvalidEmail)
                    },
                }
            },
        }
    }

    /// Parses an address from a whole slice.
    pub fn try_from(value: &[u8]) -> (r: Result<Email, ParseError>)
        ensures
            email_result(r) == email_model_of(value@),
    {
        let r = Email::parse_range(value, 0, value.len());
        proof {
            assert(value@.subrange(0, value@.len() as int) =~= value@);
        }
        r
    }
}

proof fn lemma_trim_back_keeps_first(y: Seq<u8>)
    requires
        y.len() == 0 || !is_ws(y[0]),
    ensures
        trim_back(y).len() > 0 ==> trim_back(y)[0] == y[0],
    decreases y.len(),
{
    if y.len() > 0 && is_ws(y.last()) {
        let z = y.drop_last();
        if z.len() > 0 {
            assert(z[0] == y[0]);
        }
        lemma_trim_back_keeps_first(z);
    }
}

proof fn lemma_trim_front_first(s: Seq<u8>)
    ensures
        trim_front(s).len() > 0 ==> !is_ws(trim_front(s)[0]),
    decreases s.len(),
{
    if s.len() > 0 && is_ws(s[0]) {
        lemma_trim_front_first(s.drop_first());
    }
}

/// A trimmed sequence is empty or starts with a non-whitespace byte.
pub proof fn lemma_trimmed_first(s: Seq<u8>)
    ensures
        trimmed(s).len() > 0 ==> !is_ws(trimmed(s)[0]),
{
    lemma_trim_front_first(s);
    lemma_trim_back_keeps_first(trim_front(s));
}

/// The mathematical content of a parsed person.
pub struct PersonModel {
    pub name: Option<Seq<u8>>,
    pub email: EmailModel,
}

/// A person from a `From`/`Author` header value: an optional display name
/// and an address.
#[derive(Debug, Clone, PartialEq, Eq)]
pub struct Person {
    pub name: Option<Vec<u8>>,
    pub email: Email,
}

impl View for Person {
    type V = PersonModel;

    open spec fn view(&self) -> PersonModel {
        PersonModel {
            name: match self.name {
                Some(n) => Some(n@),
                None => None,
            },
            email: self.email@,
        }
    }
}

/// A display name with one trailing ` at` token (the obfuscated wrapping's
/// separator word) removed.
pub open spec fn strip_at(name: Seq<u8>) -> Seq<u8> {
    if name.len() >= 3 && name[name.len() - 3] == 32 && name[name.len() - 2] == 97 && name[name.len()
        - 1] == 116 {
        trim_back(name.take(name.len() - 3))
    } else {
        name
    }
}

/// What parsing a person yields. The value must hold a bracketed address —
/// plain `user@domain`, or quoted and obfuscated `"user at domain"` — or be
/// a bare quoted obfuscated address; anything before the bracket, trimmed
/// and with a trailing ` at` separator word dropped, is the display name,
/// absent when that text is empty.
pub open spec fn person_model_of(v: Seq<u8>) -> Result<PersonModel, ParseError> {
    if has_byte(v, 60) {
        let lt = sep_end(v, 60) as int;
        let after = v.skip(lt + 1);
        if has_byte(after, 62) {
            let gr = sep_end(after, 62) as int;
            let inner = after.take(gr);
            let core = if inner.len() >= 2 && inner[0] == 34 && inner[inner.len() - 1] == 34 {
                inner.subrange(1, inner.len() - 1)
            } else {
                inner
            };
            match email_model_of(core) {
                Err(e) => Err(e),
                Ok(em) => {
                    let nm = strip_at(trimmed(v.take(lt)));
                    Ok(
                        PersonModel {
                            name: if nm.len() == 0 {
                                None
                            } else {
                                Some(nm)
                            },
                            email: em,
                        },
                    )
                },
            }
        } else {
            Err(ParseError::InvalidPerson)
        }
    } else if v.len() >= 2 && v[0] == 34 && v[v.len() - 1] == 34 {
        match email_model_of(v.subrange(1, v.len() - 1)) {
            Err(e) => Err(e),
            Ok(em) => Ok(PersonModel { name: None, email: em }),
        }
    } else {
        Err(ParseError::InvalidPerson)
    }
}

/// The model of a person parse result.
pub open spec fn person_result(r: Result<Person, ParseError>) -> Result<PersonModel, ParseError> {
    match r {
        Ok(m) => Ok(m@),
        Err(e) => Err(e),
    }
}

impl Person {
    /// Parses a person from a header value.
    pub fn try_from(value: &[u8]) -> (r: Result<Person, ParseError>)
        ensures
            person_result(r) == person_model_of(value@),
    {
        let ghost v = value@;
        let n = value.len();
        match find_byte(value, 0, n, 60) {
            Some(lt) => {
                proof {
                    lemma_sep_end_val(v, 60, lt as int);
                }
                let ghost after = v.skip(lt + 1);
                match find_byte(value, lt + 1, n, 62) {
                    Some(g) => {
                        proof {
                            assert forall|k: int| 0 <= k < g - lt - 1 implies after[k] != 62 by {
                                assert(after[k] == v[lt + 1 + k]);
                            }
                            assert(after[g - lt - 1] == v[g as int]);
                            lemma_sep_end_val(after, 62, g - lt - 1);
                            assert(after.take(g - lt - 1) =~= v.subrange(lt + 1, g as int));
                        }
                        let (clo, chi) = if g - (lt + 1) >= 2 && value[lt + 1] == 34 && value[g - 1]
                            == 34 {
                            (lt + 2, g - 1)
                        } else {
                            (lt + 1, g)
                        };
                        proof {
                            let inner = after.take(g - lt - 1);
                            let core = if inner.len() >= 2 && inner[0] == 34 && inner[inner.len()
                                - 1] == 34 {
                                inner.subrange(1, inner.len() - 1)
                            } else {
                                inner
                            };
                            assert(core =~= v.subrange(clo as int, chi as int));
                        }
                        match Email::parse_range(value, clo, chi) {
                            Err(e) => Err(e),
                            Ok(em) => {
                                let (a, b) = trim_range(value, 0, lt);
                                proof {
                                    assert(v.subrange(0, lt as int) =~= v.take(lt as int));
                                }
                                let ghost nm0 = trimmed(v.take(lt as int));
                                let (a2, b2) = if b - a >= 3 && value[b - 3] == 32 && value[b - 2]
                                    == 97 && value[b - 1] == 116 {
                                    proof {
                                        assert(nm0[nm0.len() - 3] == v[b - 3]);
                                        assert(nm0[nm0.len() - 2] == v[b - 2]);
                                        assert(nm0[nm0.len() - 1] == v[b - 1]);
                                    }
                                    let (xa, xb) = trim_range(value, a, b - 3);
                                    proof {
                                        let x = nm0.take(nm0.len() - 3);
                                        assert(x =~= v.subrange(a as int, b - 3));
                                        lemma_trimmed_first(v.take(lt as int));
                                        if x.len() > 0 {
                                            assert(x[0] == nm0[0]);
                                            assert(trim_front(x) == x);
                                        } else {
                                            assert(trim_front(x) == x);
                                        }
                                        assert(strip_at(nm0) == trimmed(
                                            v.subrange(a as int, b - 3),
                                        ));
                                    }
                                    (xa, xb)
                                } else {
                                    proof {
                                        if nm0.len() >= 3 {
                                            assert(nm0[nm0.len() - 3] == v[b - 3]);
                                            assert(nm0[nm0.len() - 2] == v[b - 2]);
                                            assert(nm0[nm0.len() - 1] == v[b - 1]);
                                        }
                                        assert(strip_at(nm0) == nm0);
                                    }
                                    (a, b)
                                };
                                let name = if a2 == b2 {
                                    None
                                } else {
                                    Some(crate::lex::copy_range(value, a2, b2))
                                };
                                proof {
                                    let nm = strip_at(nm0);
                                    assert(v.subrange(a2 as int, b2 as int) == nm);
                                }
                                Ok(Person { name, email: em })
                            },
                        }
                    },
                    None => {
                        proof {
                            assert forall|k: int| 0 <= k < after.len() implies after[k] != 62 by {
                                assert(after[k] == v[lt + 1 + k]);
                            }
                            lemma_sep_end_val(after, 62, after.len() as int);
                        }
                        Err(ParseError::InvalidPerson)
                    },
                }
            },
            None => {
                proof {
                    lemma_sep_end_val(v, 60, v.len() as int);
                }
                if n >= 2 && value[0] == 34 && value[n - 1] == 34 {
                    match Email::parse_range(value, 1, n - 1) {
                        Err(e) => Err(e),
                        Ok(em) => {
                            proof {
                                assert(v.subrange(1, n - 1) =~= v.subrange(1, v.len() - 1));
                            }
                            Ok(Person { name: None, email: em })
                        },
                    }
                } else {
                    Err(ParseError::InvalidPerson)
                }
            },
        }
    }
}

/// The first position at or after `i` whose byte is not a decimal digit, or
/// the end of `s`.
pub open spec fn digit_run_end(s: Seq<u8>, i: int) -> int
    decreases s.len() - i,
{
    if i < 0 {
        i
    } else if i >= s.len() {
        s.len() as int
    } else if !is_digit(s[i]) {
        i
    } else {
        digit_run_end(s, i + 1)
    }
}

pub proof fn lemma_digit_run_end(s: Seq<u8>, i: int)
    requires
        0 <= i <= s.len(),
    ensures
        i <= digit_run_end(s, i) <= s.len(),
        forall|k: int| i <= k < digit_run_end(s, i) ==> is_digit(s[k]),
        digit_run_end(s, i) < s.len() ==> !is_digit(s[digit_run_end(s, i)]),
    decreases s.len() - i,
{
    if i < s.len() && is_digit(s[i]) {
        lemma_digit_run_end(s, i + 1);
    }
}

/// A position in `t` where the run of colon-terminated tag segments can
/// end: zero, or just past a colon with every earlier segment nonempty.
pub open spec fn valid_cut(t: Seq<u8>, c: int) -> bool {
    c == 0 || (1 <= c <= t.len() && t[c - 1] == 58 && t[0] != 58 && forall|i: int|
        0 < i < c ==> !(#[trigger] t[i] == 58 && t[i - 1] == 58))
}

/// The greatest position `c' <= c` where the tag run can end and a
/// description still follows.
pub open spec fn best_cut_from(t: Seq<u8>, c: int) -> int
    decreases c,
{
    if c <= 0 {
        0
    } else if c < t.len() && valid_cut(t, c) {
        c
    } else {
        best_cut_from(t, c - 1)
    }
}

/// Where the greedy tag run of `t` ends: the greatest cut that leaves a
/// nonempty description.
pub open spec fn tag_cut(t: Seq<u8>) -> int {
    best_cut_from(t, t.len() - 1)
}

proof fn lemma_best_cut_val(t: Seq<u8>, hi: int, c: int)
    requires
        hi < t.len(),
        c == 0 || (valid_cut(t, c) && 1 <= c <= hi),
        forall|cc: int| c < cc <= hi ==> !(0 <= cc && cc < t.len() && valid_cut(t, cc)),
    ensures
        best_cut_from(t, hi) == c,
    decreases hi,
{
    if hi <= 0 {
    } else if hi == c {
    } else {
        lemma_best_cut_val(t, hi - 1, c);
    }
}

/// `tag_cut` stays within the text and is itself a valid cut.
pub proof fn lemma_tag_cut_props(t: Seq<u8>)
    ensures
        0 <= tag_cut(t),
        tag_cut(t) < t.len() || tag_cut(t) == 0,
        valid_cut(t, tag_cut(t)),
{
    lemma_best_cut_props(t, t.len() - 1);
}

proof fn lemma_best_cut_props(t: Seq<u8>, hi: int)
    requires
        hi < t.len(),
    ensures
        0 <= best_cut_from(t, hi),
        best_cut_from(t, hi) < t.len() || best_cut_from(t, hi) == 0,
        valid_cut(t, best_cut_from(t, hi)),
    decreases hi,
{
    if hi > 0 && !(hi < t.len() && valid_cut(t, hi)) {
        lemma_best_cut_props(t, hi - 1);
    }
}

/// The tags of a raw tag run: its colon-separated segments, trimmed, with
/// the empty ones dropped.
pub open spec fn tag_list(s: Seq<u8>) -> Seq<Seq<u8>>
    decreases s.len(),
    via tag_list_dec
{
    if s.len() == 0 {
        Seq::empty()
    } else {
        let e = sep_end(s, 58) as int;
        let head = trimmed(s.take(e));
        let rest = if e < s.len() {
            tag_list(s.skip(e + 1))
        } else {
            Seq::<Seq<u8>>::empty()
        };
        if head.len() == 0 {
            rest
        } else {
            seq![head] + rest
        }
    }
}

#[via_fn]
proof fn tag_list_dec(s: Seq<u8>) {
    lemma_sep_end(s, 58);
}

/// The mathematical content of a classified subject.
pub enum SubjectModel {
    Simple(Seq<u8>),
    Tagged { tags: Seq<Seq<u8>>, description: Seq<u8> },
    Patch {
        version: Option<usize>,
        index: Option<(usize, usize)>,
        tags: Seq<Seq<u8>>,
        description: Seq<u8>,
    },
}

/// A classified subject: plain text, colon-tagged text, or a patch-series
/// marker with version and index metadata.
#[derive(Debug, Clone, PartialEq, Eq)]
pub enum Subject {
    Simple(Vec<u8>),
    Tagged { tags: Vec<Vec<u8>>, description: Vec<u8> },
    Patch {
        version: Option<usize>,
        index: Option<(usize, usize)>,
        tags: Vec<Vec<u8>>,
        description: Vec<u8>,
    },
}

impl View for Subject {
    type V = SubjectModel;

    open spec fn view(&self) -> SubjectModel {
        match self {
            Subject::Simple(d) => SubjectModel::Simple(d@),
            Subject::Tagged { tags, description } => SubjectModel::Tagged {
                tags: crate::lex::views_of(tags@),
                description: description@,
            },
            Subject::Patch { version, index, tags, description } => SubjectModel::Patch {
                version: *version,
                index: *index,
                tags: crate::lex::views_of(tags@),
                description: description@,
            },
        }
    }
}

/// The number a digit run denotes, absent when it overflows the machine.
pub open spec fn opt_num(d: Seq<u8>) -> Option<usize> {
    if digits_val(d) > usize::MAX {
        None
    } else {
        Some(digits_val(d) as usize)
    }
}

/// The pieces of a recognized patch subject.
pub struct PatchParts {
    pub version: Option<usize>,
    pub index: Option<(usize, usize)>,
    pub tags: Seq<Seq<u8>>,
    pub description: Seq<u8>,
}

/// The index pair, tag run and description of a patch subject, read from
/// position `istart` on: a digit run, a slash, a digit run, then `] ` and a
/// nonempty tail that the tag run and description share.
pub open spec fn patch_tail_parts(v: Seq<u8>, version: Option<usize>, istart: int) -> Option<
    PatchParts,
> {
    let ie = digit_run_end(v, istart);
    if ie == istart {
        None
    } else if ie >= v.len() || v[ie] != 47 {
        None
    } else {
        let te = digit_run_end(v, ie + 1);
        if te == ie + 1 {
            None
        } else if te >= v.len() || v[te] != 93 {
            None
        } else if te + 1 >= v.len() || v[te + 1] != 32 {
            None
        } else if te + 2 >= v.len() {
            None
        } else {
            let tail = v.skip(te + 2);
            let c = tag_cut(tail);
            let base = opt_num(v.subrange(istart, ie));
            let total = opt_num(v.subrange(ie + 1, te));
            Some(
                PatchParts {
                    version,
                    index: match (base, total) {
                        (Some(b), Some(t)) => Some((b, t)),
                        _ => None,
                    },
                    tags: tag_list(tail.take(c)),
                    description: trimmed(tail.skip(c)),
                },
            )
        }
    }
}

/// What the patch grammar makes of a subject value: the literal `[PATCH`,
/// an optional ` v<digits>` version, a space, the `<digits>/<digits>]`
/// index, a space, then the tag run and description.
pub open spec fn patch_parse(v: Seq<u8>) -> Option<PatchParts> {
    if v.len() < 8 || v.take(6) != patch_open_lit() {
        None
    } else if v[6] == 32 && v[7] == 118 {
        let de = digit_run_end(v, 8);
        if de == 8 {
            None
        } else if de >= v.len() || v[de] != 32 {
            None
        } else {
            patch_tail_parts(v, opt_num(v.subrange(8, de)), de + 1)
        }
    } else if v[6] == 32 {
        patch_tail_parts(v, None, 7)
    } else {
        None
    }
}

/// What classification makes of a subject value: the patch grammar first,
/// else the tagged grammar when at least one tag group fits, else the
/// simple grammar, which accepts everything.
pub open spec fn subject_model_of(v: Seq<u8>) -> SubjectModel {
    match patch_parse(v) {
        Some(p) => SubjectModel::Patch {
            version: p.version,
            index: p.index,
            tags: p.tags,
            description: p.description,
        },
        None => {
            let c = tag_cut(v);
            if c >= 1 {
                SubjectModel::Tagged { tags: tag_list(v.take(c)), description: trimmed(v.skip(c)) }
            } else {
                SubjectModel::Simple(trimmed(v))
            }
        },
    }
}

/// The subject a recognized set of patch pieces denotes.
pub open spec fn subject_of_parts(p: PatchParts) -> SubjectModel {
    SubjectModel::Patch {
        version: p.version,
        index: p.index,
        tags: p.tags,
        description: p.description,
    }
}

/// Scans past the run of decimal digits starting at `i`.
fn scan_digits(s: &[u8], i: usize) -> (r: usize)
    requires
        i <= s@.len(),
    ensures
        r as int == digit_run_end(s@, i as int),
        i <= r <= s@.len(),
{
    let n = s.len();
    let mut j = i;
    while j < n && 48 <= s[j] && s[j] <= 57
        invariant
            i <= j <= n,
            n == s@.len(),
            digit_run_end(s@, i as int) == digit_run_end(s@, j as int),
        decreases n - j,
    {
        j = j + 1;
    }
    j
}

/// Computes where the greedy tag run of `[lo, hi)` of `s` ends.
fn scan_tag_cut(s: &[u8], lo: usize, hi: usize) -> (c: usize)
    requires
        lo <= hi <= s@.len(),
    ensures
        c as int == tag_cut(s@.subrange(lo as int, hi as int)),
        lo + c <= hi,
{
    let ghost t = s@.subrange(lo as int, hi as int);
    let ghost len = t.len() as int;
    let mut best: usize = 0;
    let mut pos = lo;
    loop
        invariant
            lo <= pos <= hi <= s@.len(),
            t == s@.subrange(lo as int, hi as int),
            len == t.len(),
            pos - lo == best as int,
            valid_cut(t, best as int),
            best == 0 || (best as int) < len,
        ensures
            valid_cut(t, best as int),
            best == 0 || (best as int) < len,
            best as int <= len,
            forall|cc: int| (best as int) < cc < len ==> !valid_cut(t, cc),
        decreases hi - pos,
    {
        match find_byte(s, pos, hi, 58) {
            None => {
                proof {
                    assert forall|cc: int| (best as int) < cc < len implies !valid_cut(t, cc) by {
                        assert(t[cc - 1] == s@[lo + cc - 1]);
                    }
                }
                break ;
            },
            Some(q) => {
                if q == pos {
                    proof {
                        assert(t[pos - lo] == s@[q as int]);
                        if pos == lo {
                            assert forall|cc: int| (best as int) < cc < len implies !valid_cut(
                                t,
                                cc,
                            ) by {
                                assert(t[0] == 58);
                            }
                        } else {
                            assert forall|cc: int| (best as int) < cc < len implies !valid_cut(
                                t,
                                cc,
                            ) by {
                                assert(t[best as int] == 58 && t[best as int - 1] == 58);
                            }
                        }
                    }
                    break ;
                }
                let crel = q - lo + 1;
                if crel >= hi - lo {
                    proof {
                        assert forall|cc: int| (best as int) < cc < len implies !valid_cut(t, cc) by {
                            assert(t[cc - 1] == s@[lo + cc - 1]);
                        }
                    }
                    break ;
                }
                proof {
                    assert(t[crel - 1] == s@[q as int]);
                    if best == 0 {
                        assert(t[0] == s@[lo as int]);
                    }
                    assert forall|i: int| 0 < i < crel implies !(#[trigger] t[i] == 58 && t[i - 1]
                        == 58) by {
                        if i == best as int {
                            if best > 0 {
                                assert(t[i] == s@[lo + i]);
                            }
                        } else if i > best as int {
                            assert(t[i] == s@[lo + i]);
                            assert(t[i - 1] == s@[lo + i - 1]);
                        }
                    }
                    assert(valid_cut(t, crel as int));
                }
                best = crel;
                pos = q + 1;
            },
        }
    }
    proof {
        lemma_best_cut_val(t, len - 1, best as int);
    }
    best
}

/// Collects the trimmed, nonempty tag segments of `[lo, hi)` of `s`.
fn collect_tags(s: &[u8], lo: usize, hi: usize) -> (r: Vec<Vec<u8>>)
    requires
        lo <= hi <= s@.len(),
    ensures
        views_of(r@) == tag_list(s@.subrange(lo as int, hi as int)),
{
    let ghost whole = s@.subrange(lo as int, hi as int);
    let mut out: Vec<Vec<u8>> = Vec::new();
    let mut pos = lo;
    loop
        invariant
            lo <= pos <= hi <= s@.len(),
            whole == s@.subrange(lo as int, hi as int),
            tag_list(whole) == views_of(out@) + tag_list(s@.subrange(pos as int, hi as int)),
        ensures
            tag_list(whole) == views_of(out@),
        decreases hi - pos,
    {
        if pos >= hi {
            proof {
                assert(s@.subrange(pos as int, hi as int) =~= Seq::<u8>::empty());
                assert(views_of(out@) + Seq::<Seq<u8>>::empty() =~= views_of(out@));
            }
            break ;
        }
        let ghost cur = s@.subrange(pos as int, hi as int);
        let q = match find_byte(s, pos, hi, 58) {
            Some(q) => q,
            None => hi,
        };
        proof {
            assert forall|k: int| 0 <= k < q - pos implies cur[k] != 58 by {
                assert(cur[k] == s@[pos + k]);
            }
            if q < hi {
                assert(cur[q - pos] == s@[q as int]);
            }
            lemma_sep_end_val(cur, 58, q - pos);
            assert(cur.take(q - pos) =~= s@.subrange(pos as int, q as int));
        }
        let seg = trim_copy(s, pos, q);
        let next = if q < hi {
            q + 1
        } else {
            hi
        };
        proof {
            let e = q - pos;
            if q < hi {
                assert(cur.skip(e + 1) =~= s@.subrange(next as int, hi as int));
            } else {
                assert(s@.subrange(next as int, hi as int) =~= Seq::<u8>::empty());
                assert(tag_list(Seq::<u8>::empty()) == Seq::<Seq<u8>>::empty());
            }
        }
        if seg.len() > 0 {
            proof {
                lemma_views_of_push(out@, seg);
                assert(views_of(out@).push(seg@) + tag_list(s@.subrange(next as int, hi as int))
                    =~= views_of(out@) + (seq![seg@] + tag_list(
                    s@.subrange(next as int, hi as int),
                )));
            }
            out.push(seg);
        }
        pos = next;
    }
    out
}

impl Subject {
    /// Recognizes the patch grammar; the prefix check has already passed.
    fn parse_patch(value: &[u8]) -> (r: Option<Subject>)
        requires
            value@.len() >= 8,
            value@.take(6) == patch_open_lit(),
        ensures
            ({
                let pp = patch_parse(value@);
                match r {
                    Some(s) => pp is Some && s@ == subject_of_parts(pp->Some_0),
                    None => pp is None,
                }
            }),
    {
        let ghost v = value@;
        let n = value.len();
        let (ver, istart): (Option<usize>, usize) = if value[6] == 32 && value[7] == 118 {
            let de = scan_digits(value, 8);
            if de == 8 {
                return None;
            }
            if de >= n {
                return None;
            }
            if value[de] != 32 {
                return None;
            }
            proof {
                lemma_digit_run_end(v, 8);
            }
            let w = parse_number(value, 8, de);
            (w, de + 1)
        } else if value[6] == 32 {
            (None, 7)
        } else {
            return None;
        };
        let ie = scan_digits(value, istart);
        if ie == istart {
            return None;
        }
        if ie >= n {
            return None;
        }
        if value[ie] != 47 {
            return None;
        }
        let te = scan_digits(value, ie + 1);
        if te == ie + 1 {
            return None;
        }
        if te >= n {
            return None;
        }
        if value[te] != 93 {
            return None;
        }
        if te + 1 >= n {
            return None;
        }
        if value[te + 1] != 32 {
            return None;
        }
        if te + 2 >= n {
            return None;
        }
        proof {
            lemma_digit_run_end(v, istart as int);
            lemma_digit_run_end(v, ie + 1);
        }
        let base = parse_number(value, istart, ie);
        let total = parse_number(value, ie + 1, te);
        let index = match (base, total) {
            (Some(b), Some(t)) => Some((b, t)),
            _ => None,
        };
        let ghost tail = v.skip(te + 2);
        proof {
            assert(tail =~= v.subrange(te + 2, n as int));
        }
        let c = scan_tag_cut(value, te + 2, n);
        let tags = collect_tags(value, te + 2, te + 2 + c);
        let description = trim_copy(value, te + 2 + c, n);
        proof {
            assert(tail.take(c as int) =~= v.subrange(te + 2, te + 2 + c));
            assert(tail.skip(c as int) =~= v.subrange(te + 2 + c, n as int));
        }
        Some(Subject::Patch { version: ver, index, tags, description })
    }

    /// Classifies a subject value. Classification is total: the simple
    /// grammar accepts every value, so this never returns an error.
    pub fn try_from(value: &[u8]) -> (r: Result<Subject, ParseError>)
        ensures
            r is Ok,
            match r {
                Ok(s) => s@ == subject_model_of(value@),
                Err(_) => false,
            },
    {
        let ghost v = value@;
        let n = value.len();
        let po = patch_open_pat();
        let prefix_ok = if n >= 8 {
            crate::lex::match_at(value, po.as_slice(), 0)
        } else {
            false
        };
        proof {
            if n >= 8 {
                if prefix_ok {
                    assert(v.take(6) =~= patch_open_lit());
                } else {
                    if v.take(6) == patch_open_lit() {
                        assert forall|k: int| 0 <= k < 6 implies v[k] == patch_open_lit()[k] by {
                            assert(v.take(6)[k] == v[k]);
                        }
                        assert(matches_at(v, patch_open_lit(), 0));
                        assert(false);
                    }
                }
            }
        }
        if prefix_ok {
            match Self::parse_patch(value) {
                Some(s) => {
                    return Ok(s);
                },
                None => {},
            }
        }
        proof {
            assert(patch_parse(v) is None);
        }
        let c = scan_tag_cut(value, 0, n);
        proof {
            assert(v.subrange(0, n as int) =~= v);
        }
        if c >= 1 {
            let tags = collect_tags(value, 0, c);
            let description = trim_copy(value, c, n);
            proof {
                assert(v.take(c as int) =~= v.subrange(0, c as int));
                assert(v.skip(c as int) =~= v.subrange(c as int, n as int));
            }
            Ok(Subject::Tagged { tags, description })
        } else {
            let d = trim_copy(value, 0, n);
            Ok(Subject::Simple(d))
        }
    }
}

/// Subject classification is total and unambiguous: every value classifies,
/// and under exactly one of the three grammars — patch when the patch
/// grammar recognizes it, else tagged when at least one tag group fits,
/// else simple.
pub proof fn lemma_subject_total(v: Seq<u8>)
    ensures
        subject_model_of(v) is Patch <==> patch_parse(v) is Some,
        subject_model_of(v) is Tagged <==> (patch_parse(v) is None && tag_cut(v) >= 1),
        subject_model_of(v) is Simple <==> (patch_parse(v) is None && tag_cut(v) == 0),
{
    lemma_tag_cut_props(v);
}

/// The mathematical content of a classified header.
pub enum HeaderModel {
    From(PersonModel),
    Date(i64),
    Author(PersonModel),
    Subject(SubjectModel),
    Other(Seq<u8>, Seq<u8>),
}

/// A classified header: the recognized keys carry parsed values, every
/// other key is kept verbatim with its value.
#[derive(Debug, Clone, PartialEq, Eq)]
pub enum Header {
    From(Person),
    Date(i64),
    Author(Person),
    Subject(Subject),
    Other(Vec<u8>, Vec<u8>),
}

impl View for Header {
    type V = HeaderModel;

    open spec fn view(&self) -> HeaderModel {
        match self {
            Header::From(p) => HeaderModel::From(p@),
            Header::Date(t) => HeaderModel::Date(*t),
            Header::Author(p) => HeaderModel::Author(p@),
            Header::Subject(s) => HeaderModel::Subject(s@),
            Header::Other(k, v) => HeaderModel::Other(k@, v@),
        }
    }
}

/// What classifying a header pair yields: dispatch is by the lowercased
/// key; `From` and `Author` values parse as persons, `Date` as an internet
/// date, `Subject` through the subject grammars, and any other key is kept
/// verbatim, original case preserved.
pub open spec fn header_model_of(key: Seq<u8>, value: Seq<u8>) -> Result<HeaderModel, ParseError> {
    let lk = lower(key);
    if lk == key_from_lit() {
        match person_model_of(value) {
            Ok(p) => Ok(HeaderModel::From(p)),
            Err(e) => Err(e),
        }
    } else if lk == key_date_lit() {
        match rfc2822_instant(value) {
            Some(t) => Ok(HeaderModel::Date(t)),
            None => Err(ParseError::InvalidHeaderDate),
        }
    } else if lk == key_author_lit() {
        match person_model_of(value) {
            Ok(p) => Ok(HeaderModel::Author(p)),
            Err(e) => Err(e),
        }
    } else if lk == key_subject_lit() {
        Ok(HeaderModel::Subject(subject_model_of(value)))
    } else {
        Ok(HeaderModel::Other(key, value))
    }
}

/// The model of a header classification result.
pub open spec fn header_result(r: Result<Header, ParseError>) -> Result<HeaderModel, ParseError> {
    match r {
        Ok(h) => Ok(h@),
        Err(e) => Err(e),
    }
}

impl Header {
    /// Classifies one header pair.
    pub fn try_from(key: &[u8], value: &[u8]) -> (r: Result<Header, ParseError>)
        ensures
            header_result(r) == header_model_of(key@, value@),
    {
        let lk = to_lower(key);
        let kf = key_from_pat();
        let kd = key_date_pat();
        let ka = key_author_pat();
        let ks = key_subject_pat();
        if eq_bytes(lk.as_slice(), kf.as_slice()) {
            match Person::try_from(value) {
                Ok(p) => Ok(Header::From(p)),
                Err(e) => Err(e),
            }
        } else if eq_bytes(lk.as_slice(), kd.as_slice()) {
            match parse_rfc2822(value) {
                Some(t) => Ok(Header::Date(t)),
                None => Err(ParseError::InvalidHeaderDate),
            }
        } else if eq_bytes(lk.as_slice(), ka.as_slice()) {
            match Person::try_from(value) {
                Ok(p) => Ok(Header::Author(p)),
                Err(e) => Err(e),
            }
        } else if eq_bytes(lk.as_slice(), ks.as_slice()) {
            match Subject::try_from(value) {
                Ok(s) => Ok(Header::Subject(s)),
                Err(e) => Err(e),
            }
        } else {
            let k = crate::lex::copy_range(key, 0, key.len());
            let v = crate::lex::copy_range(value, 0, value.len());
            proof {
                assert(k@ =~= key@);
                assert(v@ =~= value@);
            }
            Ok(Header::Other(k, v))
        }
    }
}

/// Tags joined by `: `.
pub open spec fn join_tags(tags: Seq<Seq<u8>>) -> Seq<u8>
    decreases tags.len(),
{
    if tags.len() == 0 {
        Seq::empty()
    } else if tags.len() == 1 {
        tags[0]
    } else {
        join_tags(tags.drop_last()) + colon_sp_lit() + tags.last()
    }
}

/// The decimal text of a number.
pub open spec fn num_text(n: usize) -> Seq<u8> {
    dec_rep(n as nat)
}

/// The display text of a subject. A patch marker with tags colors the
/// bracket and the tag run; one without tags renders plain.
pub open spec fn subject_render_model(s: SubjectModel) -> Seq<u8> {
    match s {
        SubjectModel::Simple(d) => d,
        SubjectModel::Tagged { tags, description } => join_tags(tags) + colon_sp_lit()
            + description,
        SubjectModel::Patch { version, index, tags, description } => {
            let vtxt = match version {
                Some(n) => sp_v_lit() + num_text(n),
                None => Seq::<u8>::empty(),
            };
            let itxt = match index {
                Some((b, t)) => seq![32u8] + num_text(b) + seq![47u8] + num_text(t),
                None => Seq::<u8>::empty(),
            };
            if tags.len() == 0 {
                patch_open_lit() + vtxt + itxt + seq![93u8, 32u8] + description
            } else {
                yellow_on_lit() + patch_open_lit() + vtxt + itxt + seq![93u8] + yellow_off_lit()
                    + seq![32u8] + green_on_lit() + join_tags(tags) + colon_sp_lit()
                    + green_off_lit() + description
            }
        },
    }
}

/// Renders tags joined by `: ` into `out`.
fn render_tags(out: &mut Vec<u8>, tags: &Vec<Vec<u8>>)
    ensures
        final(out)@ == old(out)@ + join_tags(views_of(tags@)),
{
    let ghost tv = views_of(tags@);
    let mut k: usize = 0;
    while k < tags.len()
        invariant
            k <= tags@.len(),
            tv == views_of(tags@),
            out@ == old(out)@ + join_tags(tv.take(k as int)),
        decreases tags@.len() - k,
    {
        if k > 0 {
            let sep = colon_sp_pat();
            crate::lex::push_bytes(out, sep.as_slice());
        }
        crate::lex::push_bytes(out, tags[k].as_slice());
        proof {
            let t1 = tv.take(k + 1);
            assert(t1.drop_last() =~= tv.take(k as int));
            assert(t1.last() == tv[k as int]);
            assert(tv[k as int] == tags@[k as int]@);
            if k == 0 {
                assert(join_tags(t1) == t1[0]);
                assert(old(out)@ + join_tags(tv.take(0)) =~= old(out)@);
            }
            assert(out@ =~= old(out)@ + join_tags(t1));
        }
        k = k + 1;
    }
    proof {
        assert(tv.take(tv.len() as int) =~= tv);
    }
}

impl Subject {
    /// Renders this subject as display text.
    #[verifier::rlimit(100)]
    pub fn render(&self) -> (r: Vec<u8>)
        ensures
            r@ == subject_render_model(self@),
    {
        match self {
            Subject::Simple(d) => {
                let r = crate::lex::copy_range(d.as_slice(), 0, d.len());
                proof {
                    assert(r@ =~= d@);
                }
                r
            },
            Subject::Tagged { tags, description } => {
                let mut out: Vec<u8> = Vec::new();
                proof {
                    assert(out@ =~= Seq::<u8>::empty() + Seq::<u8>::empty());
                }
                render_tags(&mut out, tags);
                let sep = colon_sp_pat();
                crate::lex::push_bytes(&mut out, sep.as_slice());
                crate::lex::push_bytes(&mut out, description.as_slice());
                proof {
                    assert(out@ =~= join_tags(views_of(tags@)) + colon_sp_lit() + description@);
                }
                out
            },
            Subject::Patch { version, index, tags, description } => {
                let mut head: Vec<u8> = Vec::new();
                let opener = patch_open_pat();
                crate::lex::push_bytes(&mut head, opener.as_slice());
                match version {
                    Some(n) => {
                        let pv = sp_v_pat();
                        crate::lex::push_bytes(&mut head, pv.as_slice());
                        let digits = crate::lex::render_dec(*n);
                        crate::lex::push_bytes(&mut head, digits.as_slice());
                    },
                    None => {},
                }
                match index {
                    Some((b, t)) => {
                        head.push(32);
                        let bd = crate::lex::render_dec(*b);
                        crate::lex::push_bytes(&mut head, bd.as_slice());
                        head.push(47);
                        let td = crate::lex::render_dec(*t);
                        crate::lex::push_bytes(&mut head, td.as_slice());
                    },
                    None => {},
                }
                let ghost vtxt = match self@ {
                    SubjectModel::Patch { version: sv, .. } => match sv {
                        Some(n) => sp_v_lit() + num_text(n),
                        None => Seq::<u8>::empty(),
                    },
                    _ => Seq::<u8>::empty(),
                };
                let ghost itxt = match self@ {
                    SubjectModel::Patch { index: si, .. } => match si {
                        Some((b, t)) => seq![32u8] + num_text(b) + seq![47u8] + num_text(t),
                        None => Seq::<u8>::empty(),
                    },
                    _ => Seq::<u8>::empty(),
                };
                proof {
                    assert(head@ =~= patch_open_lit() + vtxt + itxt);
                }
                let mut out: Vec<u8> = Vec::new();
                if tags.len() == 0 {
                    crate::lex::push_bytes(&mut out, head.as_slice());
                    out.push(93);
                    out.push(32);
                    crate::lex::push_bytes(&mut out, description.as_slice());
                    proof {
                        assert(views_of(tags@).len() == 0);
                        assert(out@ =~= patch_open_lit() + vtxt + itxt + seq![93u8, 32u8]
                            + description@);
                    }
                } else {
                    let yon = yellow_on_pat();
                    crate::lex::push_bytes(&mut out, yon.as_slice());
                    crate::lex::push_bytes(&mut out, head.as_slice());
                    out.push(93);
                    let yoff = yellow_off_pat();
                    crate::lex::push_bytes(&mut out, yoff.as_slice());
                    out.push(32);
                    let gon = green_on_pat();
                    crate::lex::push_bytes(&mut out, gon.as_slice());
                    render_tags(&mut out, tags);
                    let sep = colon_sp_pat();
                    crate::lex::push_bytes(&mut out, sep.as_slice());
                    let goff = green_off_pat();
                    crate::lex::push_bytes(&mut out, goff.as_slice());
                    crate::lex::push_bytes(&mut out, description.as_slice());
                    proof {
                        assert(views_of(tags@).len() > 0);
                        assert(out@ =~= yellow_on_lit() + patch_open_lit() + vtxt + itxt + seq![
                            93u8,
                        ] + yellow_off_lit() + seq![32u8] + green_on_lit() + join_tags(
                            views_of(tags@),
                        ) + colon_sp_lit() + green_off_lit() + description@);
                    }
                }
                out
            },
        }
    }
}

/// The first occurrence of `p` within `[from, hi)` of `s` that fits before
/// `hi`, if any; a match is relative to the subrange `[from, hi)` semantics
/// used by the address grammars.
fn find_pat_range(s: &[u8], from: usize, hi: usize, p: &[u8]) -> (r: Option<usize>)
    requires
        from <= hi <= s@.len(),
        p@.len() >= 1,
    ensures
        ({
            let t = s@.subrange(from as int, hi as int);
            match r {
                Some(i) => from <= i && i + p@.len() <= hi && matches_at(t, p@, i - from)
                    && forall|j: int| 0 <= j < i - from ==> !matches_at(t, p@, j),
                None => forall|j: int| 0 <= j ==> !matches_at(t, p@, j),
            }
        }),
{
    let ghost t = s@.subrange(from as int, hi as int);
    let m = p.len();
    let mut i = from;
    if hi - from < m {
        return None;
    }
    let last = hi - m;
    while i <= last
        invariant
            from <= i,
            from + m <= hi <= s@.len(),
            last == hi - m,
            m == p@.len(),
            m >= 1,
            t == s@.subrange(from as int, hi as int),
            forall|j: int| 0 <= j < i - from ==> !matches_at(t, p@, j),
        decreases last + 1 - i,
    {
        if crate::lex::match_at(s, p, i) {
            proof {
                assert forall|k: int| 0 <= k < m implies t[i - from + k] == p@[k] by {
                    assert(t[i - from + k] == s@[i + k]);
                }
                assert(matches_at(t, p@, i - from));
            }
            return Some(i);
        }
        proof {
            if matches_at(t, p@, i - from) {
                assert forall|k2: int| 0 <= k2 < m implies s@[i + k2] == p@[k2] by {
                    assert(t[i - from + k2] == s@[i + k2]);
                }
                assert(matches_at(s@, p@, i as int));
                assert(false);
            }
        }
        i = i + 1;
    }
    proof {
        assert forall|j: int| 0 <= j implies !matches_at(t, p@, j) by {
            if j > last - from {
                assert(j + p@.len() > t.len());
            } else {
                assert(!matches_at(t, p@, j));
            }
        }
    }
    None
}

} // verus!
