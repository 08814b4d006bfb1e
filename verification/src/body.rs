//! Body parsing: a body either is plain text, or ends the message's prose
//! with a front-matter block before a standalone `---` delimiter line, whose
//! trailing `key: value` lines are footers; a display projection can drop
//! the text after the delimiter and keep only the front matter.

use vstd::prelude::*;

use crate::lex::{
    find_pat, first_match, last_nl_before, lemma_first_match_none, lemma_first_match_val,
    pair_views, trim_copy, trim_range, trimmed,
};
use crate::lit::{colon_sp_lit, colon_sp_pat, fm_delim_lit, fm_delim_pat};

verus! {

/// The mathematical content of a parsed body.
pub enum BodyModel {
    Simple(Seq<u8>),
    WithFrontMatter { front_matter: Seq<u8>, footers: Seq<(Seq<u8>, Seq<u8>)>, body: Seq<u8> },
    OnlyFrontMatter { front_matter: Seq<u8>, footers: Seq<(Seq<u8>, Seq<u8>)> },
}

/// A message body: plain text, or a front matter with footers beside the
/// remaining body text, or the front-matter-only projection of the latter.
#[derive(Debug, Clone, PartialEq, Eq)]
pub enum Body {
    Simple(Vec<u8>),
    WithFrontMatter { front_matter: Vec<u8>, footers: Vec<(Vec<u8>, Vec<u8>)>, body: Vec<u8> },
    OnlyFrontMatter { front_matter: Vec<u8>, footers: Vec<(Vec<u8>, Vec<u8>)> },
}

impl View for Body {
    type V = BodyModel;

    open spec fn view(&self) -> BodyModel {
        match self {
            Body::Simple(t) => BodyModel::Simple(t@),
            Body::WithFrontMatter { front_matter, footers, body } => BodyModel::WithFrontMatter {
                front_matter: front_matter@,
                footers: pair_views(footers@),
                body: body@,
            },
            Body::OnlyFrontMatter { front_matter, footers } => BodyModel::OnlyFrontMatter {
                front_matter: front_matter@,
                footers: pair_views(footers@),
            },
        }
    }
}

/// The footer a line yields, if it holds the `: ` separator: the trimmed
/// sides of the separator's first occurrence.
pub open spec fn footer_of_line(line: Seq<u8>) -> Option<(Seq<u8>, Seq<u8>)> {
    match first_match(line, colon_sp_lit(), 0) {
        None => None,
        Some(q) => Some((trimmed(line.take(q)), trimmed(line.skip(q + 2)))),
    }
}

proof fn lemma_last_nl_lt(s: Seq<u8>, i: int)
    ensures
        i > 0 ==> last_nl_before(s, i) < i,
        -1 <= last_nl_before(s, i),
    decreases i,
{
    if i > 0 && s[i - 1] != 10 {
        lemma_last_nl_lt(s, i - 1);
        if i - 1 <= 0 {
            assert(last_nl_before(s, i - 1) == -1);
        }
    }
}

/// Scans the lines of `f` backward from position `e`, greedily consuming
/// the trailing run of footer lines; stops at the first blank line or first
/// line without the separator. Yields the footers in top-to-bottom order
/// and the position where the remaining front matter ends.
pub open spec fn footer_scan(f: Seq<u8>, e: int) -> (Seq<(Seq<u8>, Seq<u8>)>, int)
    decreases e + 1,
    via footer_scan_dec
{
    if e <= 0 {
        (Seq::empty(), 0)
    } else {
        let ls = last_nl_before(f, e) + 1;
        let line = f.subrange(ls, e);
        if trimmed(line).len() == 0 {
            (Seq::empty(), e)
        } else {
            match footer_of_line(line) {
                None => (Seq::empty(), e),
                Some(kv) => {
                    let rest = footer_scan(f, ls - 1);
                    (rest.0.push(kv), rest.1)
                },
            }
        }
    }
}

#[via_fn]
proof fn footer_scan_dec(f: Seq<u8>, e: int) {
    if e > 0 {
        lemma_last_nl_lt(f, e);
    }
}

/// What parsing a body yields: with no `---` line the whole text, verbatim;
/// otherwise the trimmed text before the delimiter minus its trailing
/// footer run, the footers in written order, and the trimmed text after the
/// delimiter.
pub open spec fn body_model_of(v: Seq<u8>) -> BodyModel {
    match first_match(v, fm_delim_lit(), 0) {
        None => BodyModel::Simple(v),
        Some(i) => {
            let f = v.take(i);
            let e0 = if f.len() > 0 && f.last() == 10 {
                f.len() - 1
            } else {
                f.len() as int
            };
            let sc = footer_scan(f, e0);
            BodyModel::WithFrontMatter {
                front_matter: trimmed(f.take(sc.1)),
                footers: sc.0,
                body: trimmed(v.skip(i + 5)),
            }
        },
    }
}

/// The source shape of a body: plain text verbatim; front matter and its
/// footers between delimiter lines, then the remaining body text.
pub open spec fn body_render_model(b: BodyModel) -> Seq<u8> {
    match b {
        BodyModel::Simple(t) => t,
        BodyModel::WithFrontMatter { front_matter, footers, body } => front_matter + fm_delim_lit()
            + crate::renderer::footers_text(footers) + crate::lit::dashes_nl_lit() + body,
        BodyModel::OnlyFrontMatter { front_matter, footers } => front_matter + fm_delim_lit()
            + crate::renderer::footers_text(footers),
    }
}

/// The front-matter projection: a body with front matter keeps only the
/// front matter and footers; anything else is returned unchanged.
pub open spec fn front_matter_only_model(b: BodyModel) -> BodyModel {
    match b {
        BodyModel::WithFrontMatter { front_matter, footers, .. } => BodyModel::OnlyFrontMatter {
            front_matter,
            footers,
        },
        other => other,
    }
}

/// Projecting to front matter is idempotent, and leaves bodies without
/// front matter untouched.
pub proof fn lemma_front_matter_only_idempotent(b: BodyModel)
    ensures
        front_matter_only_model(front_matter_only_model(b)) == front_matter_only_model(b),
        b is Simple ==> front_matter_only_model(b) == b,
{
}

/// Finds the start of the line of `s` that ends at `e`.
fn last_line_start(s: &[u8], e: usize) -> (ls: usize)
    requires
        e <= s@.len(),
    ensures
        ls as int == last_nl_before(s@, e as int) + 1,
        ls <= e,
{
    let mut j = e;
    while j > 0 && s[j - 1] != 10
        invariant
            j <= e <= s@.len(),
            last_nl_before(s@, e as int) == last_nl_before(s@, j as int),
        decreases j,
    {
        j = j - 1;
    }
    j
}

impl Body {
    /// Parses the remainder of a message after its header block.
    pub fn from(value: &[u8]) -> (r: Body)
        ensures
            r@ == body_model_of(value@),
    {
        let ghost v = value@;
        let n = value.len();
        let delim = fm_delim_pat();
        let i = match find_pat(value, 0, delim.as_slice()) {
            Some(i) => {
                proof {
                    lemma_first_match_val(v, fm_delim_lit(), 0, i as int);
                }
                i
            },
            None => {
                proof {
                    lemma_first_match_none(v, fm_delim_lit(), 0);
                }
                let t = crate::lex::copy_range(value, 0, n);
                proof {
                    assert(t@ =~= v);
                }
                return Body::Simple(t);
            },
        };
        let ghost f = v.take(i as int);
        let e0 = if i > 0 && value[i - 1] == 10 {
            i - 1
        } else {
            i
        };
        proof {
            if i > 0 {
                assert(f.last() == v[i - 1]);
            }
        }
        let mut footers: Vec<(Vec<u8>, Vec<u8>)> = Vec::new();
        let mut cur_e = e0;
        proof {
            assert(footer_scan(f, e0 as int).0 =~= footer_scan(f, cur_e as int).0 + pair_views(
                footers@,
            ));
        }
        let cut: usize;
        loop
            invariant
                v == value@,
                n == v.len(),
                cur_e <= e0 <= i <= n,
                i + 5 <= n,
                f == v.take(i as int),
                footer_scan(f, e0 as int).0 == footer_scan(f, cur_e as int).0 + pair_views(
                    footers@,
                ),
                footer_scan(f, e0 as int).1 == footer_scan(f, cur_e as int).1,
            ensures
                cut <= i,
                footer_scan(f, e0 as int).0 == pair_views(footers@),
                footer_scan(f, e0 as int).1 == cut as int,
            decreases cur_e,
        {
            if cur_e == 0 {
                proof {
                    assert(footer_scan(f, 0).0 + pair_views(footers@) =~= pair_views(footers@));
                }
                cut = 0;
                break ;
            }
            let ls = last_line_start(value, cur_e);
            let ghost line = f.subrange(ls as int, cur_e as int);
            proof {
                lemma_last_nl_lt(v, cur_e as int);
                assert forall|k: int| ls <= k < cur_e implies f[k] == v[k] by {}
                assert(line =~= v.subrange(ls as int, cur_e as int));
                assert(last_nl_before(f, cur_e as int) == last_nl_before(v, cur_e as int)) by {
                    lemma_last_nl_same(v, f, cur_e as int);
                }
            }
            let (ta, tb) = trim_range(value, ls, cur_e);
            if ta == tb {
                proof {
                    assert(trimmed(line).len() == 0);
                    assert(footer_scan(f, cur_e as int).0 =~= Seq::<(Seq<u8>, Seq<u8>)>::empty());
                    assert(Seq::<(Seq<u8>, Seq<u8>)>::empty() + pair_views(footers@)
                        =~= pair_views(footers@));
                }
                cut = cur_e;
                break ;
            }
            proof {
                assert(trimmed(line).len() == tb - ta);
            }
            let sep = colon_sp_pat();
            let found = match crate::lex::find_pat(value, ls, sep.as_slice()) {
                Some(q) => {
                    if q + 2 <= cur_e {
                        Some(q)
                    } else {
                        proof {
                            assert forall|j: int| 0 <= j implies !crate::lex::matches_at(
                                line,
                                colon_sp_lit(),
                                j,
                            ) by {
                                if crate::lex::matches_at(line, colon_sp_lit(), j) {
                                    assert(v[ls + j] == line[j]);
                                    assert(v[ls + j + 1] == line[j + 1]);
                                    assert(crate::lex::matches_at(v, colon_sp_lit(), ls + j));
                                }
                            }
                            lemma_first_match_none(line, colon_sp_lit(), 0);
                        }
                        None
                    }
                },
                None => {
                    proof {
                        assert forall|j: int| 0 <= j implies !crate::lex::matches_at(
                            line,
                            colon_sp_lit(),
                            j,
                        ) by {
                            if crate::lex::matches_at(line, colon_sp_lit(), j) {
                                assert(v[ls + j] == line[j]);
                                assert(v[ls + j + 1] == line[j + 1]);
                                assert(crate::lex::matches_at(v, colon_sp_lit(), ls + j));
                            }
                        }
                        lemma_first_match_none(line, colon_sp_lit(), 0);
                    }
                    None
                },
            };
            match found {
                Some(q) => {
                    proof {
                        assert forall|j: int| 0 <= j < q - ls implies !crate::lex::matches_at(
                            line,
                            colon_sp_lit(),
                            j,
                        ) by {
                            if crate::lex::matches_at(line, colon_sp_lit(), j) {
                                assert(v[ls + j] == line[j]);
                                assert(v[ls + j + 1] == line[j + 1]);
                                assert(crate::lex::matches_at(v, colon_sp_lit(), ls + j));
                            }
                        }
                        assert(line[q - ls] == v[q as int]);
                        assert(line[q - ls + 1] == v[q + 1]);
                        assert(crate::lex::matches_at(line, colon_sp_lit(), q - ls));
                        lemma_first_match_val(line, colon_sp_lit(), 0, q - ls);
                    }
                    let key = trim_copy(value, ls, q);
                    let val = trim_copy(value, q + 2, cur_e);
                    proof {
                        assert(line.take(q - ls) =~= v.subrange(ls as int, q as int));
                        assert(line.skip(q - ls + 2) =~= v.subrange(q + 2, cur_e as int));
                        assert(footer_of_line(line) == Some((key@, val@)));
                        let prev = footer_scan(f, (ls - 1) as int);
                        assert(footer_scan(f, cur_e as int).0 == prev.0.push((key@, val@)));
                        crate::lex::lemma_pair_views_push(footers@, (key, val));
                    }
                    let ghost old_footers = footers@;
                    footers.insert(0, (key, val));
                    proof {
                        assert(pair_views(footers@) =~= seq![(key@, val@)] + pair_views(
                            old_footers,
                        ));
                        let prev = footer_scan(f, (ls - 1) as int);
                        assert(prev.0 + pair_views(footers@) =~= (prev.0.push((key@, val@)))
                            + pair_views(old_footers));
                    }
                    cur_e = if ls > 0 {
                        ls - 1
                    } else {
                        0
                    };
                    proof {
                        if ls == 0 {
                            assert(footer_scan(f, -1).0 == footer_scan(f, 0).0);
                            assert(footer_scan(f, -1).1 == footer_scan(f, 0).1);
                        }
                    }
                },
                None => {
                    proof {
                        assert(footer_of_line(line) is None);
                        assert(footer_scan(f, cur_e as int).0 =~= Seq::<
                            (Seq<u8>, Seq<u8>),
                        >::empty());
                        assert(Seq::<(Seq<u8>, Seq<u8>)>::empty() + pair_views(footers@)
                            =~= pair_views(footers@));
                    }
                    cut = cur_e;
                    break ;
                },
            }
        }
        let front_matter = trim_copy(value, 0, cut);
        let body = trim_copy(value, i + 5, n);
        proof {
            assert(f.take(footer_scan(f, e0 as int).1) =~= v.subrange(0, cut as int));
            assert(v.skip(i + 5) =~= v.subrange(i + 5, n as int));
        }
        Body::WithFrontMatter { front_matter, footers, body }
    }

    /// Renders this body back to its source shape: the front matter, the
    /// delimiter line, the footer lines, and — when body text remains — a
    /// closing delimiter line before it.
    pub fn render(&self) -> (r: Vec<u8>)
        ensures
            r@ == body_render_model(self@),
    {
        match self {
            Body::Simple(t) => {
                let r = crate::lex::copy_range(t.as_slice(), 0, t.len());
                proof {
                    assert(r@ =~= t@);
                }
                r
            },
            Body::WithFrontMatter { front_matter, footers, body } => {
                let mut out: Vec<u8> = Vec::new();
                crate::lex::push_bytes(&mut out, front_matter.as_slice());
                let delim = fm_delim_pat();
                crate::lex::push_bytes(&mut out, delim.as_slice());
                crate::renderer::push_footers(&mut out, footers);
                let closing = crate::lit::dashes_nl_pat();
                crate::lex::push_bytes(&mut out, closing.as_slice());
                crate::lex::push_bytes(&mut out, body.as_slice());
                proof {
                    assert(out@ =~= body_render_model(self@));
                }
                out
            },
            Body::OnlyFrontMatter { front_matter, footers } => {
                let mut out: Vec<u8> = Vec::new();
                crate::lex::push_bytes(&mut out, front_matter.as_slice());
                let delim = fm_delim_pat();
                crate::lex::push_bytes(&mut out, delim.as_slice());
                crate::renderer::push_footers(&mut out, footers);
                proof {
                    assert(out@ =~= body_render_model(self@));
                }
                out
            },
        }
    }

    /// Projects this body to its front matter: the text after the delimiter
    /// is dropped, a body without front matter is returned unchanged.
    pub fn front_matter_only(self) -> (r: Body)
        ensures
            r@ == front_matter_only_model(self@),
    {
        match self {
            Body::WithFrontMatter { front_matter, footers, body: _ } => Body::OnlyFrontMatter {
                front_matter,
                footers,
            },
            other => other,
        }
    }
}

proof fn lemma_last_nl_same(v: Seq<u8>, f: Seq<u8>, i: int)
    requires
        i <= f.len(),
        forall|k: int| 0 <= k < i ==> f[k] == v[k],
    ensures
        last_nl_before(f, i) == last_nl_before(v, i),
    decreases i,
{
    if i > 0 {
        lemma_last_nl_same(v, f, i - 1);
    }
}

} // verus!
