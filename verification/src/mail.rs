//! The raw message grammar: a mailer marker line, a block of `key: value`
//! header lines ended by the first blank line, and the body that follows the
//! first truly empty line. Header values are kept as uninterpreted pairs
//! here; the typed header grammar builds on top of this module.

use vstd::prelude::*;

use crate::err::ParseError;
use crate::lex::{
    copy_range, eq_bytes, fields, find_byte, find_pat, first_match, is_ws, lemma_first_match_none,
    lemma_first_match_val, lemma_pair_views_push, lemma_sep_end, lemma_sep_end_val, matches_at,
    pair_views,
    push_bytes, sep_end, trim_back, trim_copy, trim_front, trim_range, trimmed, views_of,
};
use crate::lit::{
    blank_sep_lit, blank_sep_pat, colon_sp_lit, utc_suffix_lit, utc_suffix_pat, word_from_lit,
    word_from_pat,
};
use crate::time::{mailer_instant, parse_mailer_date};

verus! {

/// The mathematical content of a parsed mailer line.
pub struct MailerModel {
    pub daemon: Seq<u8>,
    pub date: i64,
}

/// The synthetic marker line that starts a message in an mbox archive, e.g.
/// `From git@z Thu Jan  1 00:00:00 1970`. The date is parsed assuming a
/// fixed `+0000` offset: the marker format carries no time zone.
#[derive(Debug, Clone, PartialEq, Eq)]
pub struct Mailer {
    pub daemon: Vec<u8>,
    pub date: i64,
}

impl View for Mailer {
    type V = MailerModel;

    open spec fn view(&self) -> MailerModel {
        MailerModel { daemon: self.daemon@, date: self.date }
    }
}

/// The date string handed to calendar parsing: tokens two through six of the
/// mailer line joined by single spaces, with the fixed `+0000` offset.
pub open spec fn mailer_date_input(toks: Seq<Seq<u8>>) -> Seq<u8> {
    toks[2] + seq![32u8] + toks[3] + seq![32u8] + toks[4] + seq![32u8] + toks[5] + seq![32u8]
        + toks[6] + utc_suffix_lit()
}

/// What parsing a mailer line yields: the line must trim to at least seven
/// space-separated tokens, the first literally `From`; the daemon is the
/// second token and the date comes from tokens two through six.
pub open spec fn mailer_model_of(line: Seq<u8>) -> Result<MailerModel, ParseError> {
    let toks = fields(trimmed(line), 32);
    if toks.len() < 7 {
        Err(ParseError::MalformedMailerLine)
    } else if toks[0] != word_from_lit() {
        Err(ParseError::MalformedMailerLine)
    } else {
        match mailer_instant(mailer_date_input(toks)) {
            Some(t) => Ok(MailerModel { daemon: toks[1], date: t }),
            None => Err(ParseError::InvalidTimestamp),
        }
    }
}

/// The model of a mailer parse result.
pub open spec fn mailer_result(r: Result<Mailer, ParseError>) -> Result<MailerModel, ParseError> {
    match r {
        Ok(m) => Ok(m@),
        Err(e) => Err(e),
    }
}

impl Mailer {
    /// Parses a mailer marker line.
    pub fn try_from(value: &[u8]) -> (r: Result<Mailer, ParseError>)
        ensures
            mailer_result(r) == mailer_model_of(value@),
    {
        let ghost line = value@;
        let n = value.len();
        let (a, b) = trim_range(value, 0, n);
        let toks = crate::lex::split_fields(value, a, b, 32);
        proof {
            assert(value@.subrange(0, n as int) =~= line);
            assert(views_of(toks@) == fields(trimmed(line), 32));
        }
        if toks.len() < 7 {
            return Err(ParseError::MalformedMailerLine);
        }
        let word = word_from_pat();
        if !eq_bytes(toks[0].as_slice(), word.as_slice()) {
            proof {
                assert(views_of(toks@)[0] == toks@[0]@);
            }
            return Err(ParseError::MalformedMailerLine);
        }
        proof {
            assert(views_of(toks@)[0] == toks@[0]@);
        }
        let mut d: Vec<u8> = Vec::new();
        push_bytes(&mut d, toks[2].as_slice());
        d.push(32);
        push_bytes(&mut d, toks[3].as_slice());
        d.push(32);
        push_bytes(&mut d, toks[4].as_slice());
        d.push(32);
        push_bytes(&mut d, toks[5].as_slice());
        d.push(32);
        push_bytes(&mut d, toks[6].as_slice());
        let suffix = utc_suffix_pat();
        push_bytes(&mut d, suffix.as_slice());
        proof {
            let tv = views_of(toks@);
            assert(tv[2] == toks@[2]@);
            assert(tv[3] == toks@[3]@);
            assert(tv[4] == toks@[4]@);
            assert(tv[5] == toks@[5]@);
            assert(tv[6] == toks@[6]@);
            assert(d@ =~= mailer_date_input(tv));
        }
        match parse_mailer_date(d.as_slice()) {
            Some(t) => {
                let dtok = &toks[1];
                let daemon = copy_range(dtok.as_slice(), 0, dtok.len());
                proof {
                    assert(views_of(toks@)[1] == toks@[1]@);
                    assert(daemon@ =~= toks@[1]@);
                }
                Ok(Mailer { daemon, date: t })
            },
            None => Err(ParseError::InvalidTimestamp),
        }
    }
}

/// The key/value pair a header line yields: the line splits at its first
/// colon and both sides are trimmed; a line without a colon becomes a key
/// with an empty value.
pub open spec fn pair_of_line(line: Seq<u8>) -> (Seq<u8>, Seq<u8>) {
    let q = sep_end(line, 58) as int;
    if q >= line.len() {
        (trimmed(line), Seq::<u8>::empty())
    } else {
        (trimmed(line.take(q)), trimmed(line.skip(q + 1)))
    }
}

/// The ordered header pairs of the text after the mailer line: one pair per
/// line, duplicates kept, stopping before the first line that trims to
/// nothing.
pub open spec fn header_pairs(r: Seq<u8>) -> Seq<(Seq<u8>, Seq<u8>)>
    decreases r.len(),
    via header_pairs_dec
{
    if r.len() == 0 {
        Seq::empty()
    } else {
        let e = sep_end(r, 10) as int;
        let line = r.take(e);
        if trimmed(line).len() == 0 {
            Seq::empty()
        } else {
            seq![pair_of_line(line)] + header_pairs(
                r.skip(
                    if e < r.len() {
                        e + 1
                    } else {
                        e
                    },
                ),
            )
        }
    }
}

#[via_fn]
proof fn header_pairs_dec(r: Seq<u8>) {
    lemma_sep_end(r, 10);
    if r.len() > 0 {
        let e = sep_end(r, 10) as int;
        let line = r.take(e);
        if trimmed(line).len() != 0 {
            if e == 0 {
                assert(line =~= Seq::<u8>::empty());
            }
        }
    }
}

/// The body of a message: everything from the first truly empty line on
/// (that blank separator included), or nothing when no such line exists.
pub open spec fn body_of(v: Seq<u8>) -> Seq<u8> {
    match first_match(v, blank_sep_lit(), 0) {
        Some(i) => v.skip(i),
        None => Seq::<u8>::empty(),
    }
}

/// The mathematical content of a parsed raw message.
pub struct MessageModel {
    pub mailer: Option<MailerModel>,
    pub headers: Seq<(Seq<u8>, Seq<u8>)>,
    pub body: Seq<u8>,
}

/// A raw message: its mailer line, its header lines as key/value pairs in
/// original order, and its body.
#[derive(Debug, Clone, PartialEq, Eq)]
pub struct Message {
    pub mailer: Option<Mailer>,
    pub headers: Vec<(Vec<u8>, Vec<u8>)>,
    pub body: Vec<u8>,
}

impl View for Message {
    type V = MessageModel;

    open spec fn view(&self) -> MessageModel {
        MessageModel {
            mailer: match self.mailer {
                Some(m) => Some(m@),
                None => None,
            },
            headers: pair_views(self.headers@),
            body: self.body@,
        }
    }
}

/// What parsing a message span yields: an empty span is refused; the first
/// line must parse as a mailer line; the following lines up to the first
/// blank one become header pairs; the body starts at the first empty line.
pub open spec fn raw_message_of(v: Seq<u8>) -> Result<MessageModel, ParseError> {
    if v.len() == 0 {
        Err(ParseError::EmptyInput)
    } else {
        let e = sep_end(v, 10) as int;
        match mailer_model_of(v.take(e)) {
            Err(er) => Err(er),
            Ok(m) => Ok(
                MessageModel {
                    mailer: Some(m),
                    headers: header_pairs(
                        v.skip(
                            if e < v.len() {
                                e + 1
                            } else {
                                e
                            },
                        ),
                    ),
                    body: body_of(v),
                },
            ),
        }
    }
}

/// The model of a raw message parse result.
pub open spec fn message_result(r: Result<Message, ParseError>) -> Result<
    MessageModel,
    ParseError,
> {
    match r {
        Ok(m) => Ok(m@),
        Err(e) => Err(e),
    }
}

impl Message {
    /// Parses one message span into its mailer, header pairs and body.
    pub fn try_from(value: &[u8]) -> (r: Result<Message, ParseError>)
        ensures
            message_result(r) == raw_message_of(value@),
    {
        let ghost v = value@;
        let n = value.len();
        if n == 0 {
            return Err(ParseError::EmptyInput);
        }
        let e1 = match find_byte(value, 0, n, 10) {
            Some(q) => q,
            None => n,
        };
        proof {
            lemma_sep_end_val(v, 10, e1 as int);
        }
        let first_line = vstd::slice::slice_subrange(value, 0, e1);
        proof {
            assert(first_line@ =~= v.take(e1 as int));
        }
        let mailer = match Mailer::try_from(first_line) {
            Ok(m) => m,
            Err(er) => {
                return Err(er);
            },
        };
        let start = if e1 < n {
            e1 + 1
        } else {
            e1
        };
        let ghost rest0 = v.skip(start as int);
        let mut headers: Vec<(Vec<u8>, Vec<u8>)> = Vec::new();
        let mut pos = start;
        loop
            invariant
                v == value@,
                n == v.len(),
                start <= pos <= n,
                header_pairs(rest0) == pair_views(headers@) + header_pairs(v.skip(pos as int)),
            ensures
                header_pairs(rest0) == pair_views(headers@),
            decreases n - pos,
        {
            if pos >= n {
                proof {
                    assert(v.skip(pos as int) =~= Seq::<u8>::empty());
                    assert(pair_views(headers@) + Seq::<(Seq<u8>, Seq<u8>)>::empty()
                        =~= pair_views(headers@));
                }
                break ;
            }
            let q = match find_byte(value, pos, n, 10) {
                Some(q) => q,
                None => n,
            };
            let ghost w = v.skip(pos as int);
            proof {
                assert forall|k: int| 0 <= k < q - pos implies w[k] != 10 by {
                    assert(w[k] == v[pos + k]);
                }
                if q < n {
                    assert(w[q - pos] == v[q as int]);
                }
                lemma_sep_end_val(w, 10, q - pos);
                assert(w.take(q - pos) =~= v.subrange(pos as int, q as int));
            }
            let (ta, tb) = trim_range(value, pos, q);
            let ghost line = w.take(q - pos);
            if ta == tb {
                proof {
                    assert(trimmed(line).len() == 0);
                    assert(pair_views(headers@) + Seq::<(Seq<u8>, Seq<u8>)>::empty()
                        =~= pair_views(headers@));
                }
                break ;
            }
            proof {
                assert(trimmed(line).len() == tb - ta);
            }
            let c = match find_byte(value, pos, q, 58) {
                Some(c) => c,
                None => q,
            };
            proof {
                assert forall|k: int| 0 <= k < c - pos implies line[k] != 58 by {
                    assert(line[k] == v[pos + k]);
                }
                if c < q {
                    assert(line[c - pos] == v[c as int]);
                }
                lemma_sep_end_val(line, 58, c - pos);
            }
            let pair = if c < q {
                let key = trim_copy(value, pos, c);
                let val = trim_copy(value, c + 1, q);
                proof {
                    assert(line.take(c - pos) =~= v.subrange(pos as int, c as int));
                    assert(line.skip(c - pos + 1) =~= v.subrange(c + 1, q as int));
                    assert(pair_of_line(line) == (key@, val@));
                }
                (key, val)
            } else {
                let key = trim_copy(value, pos, q);
                let val: Vec<u8> = Vec::new();
                proof {
                    assert(val@ =~= Seq::<u8>::empty());
                    assert(pair_of_line(line) == (key@, val@));
                }
                (key, val)
            };
            let next = if q < n {
                q + 1
            } else {
                q
            };
            proof {
                let e = (q - pos) as int;
                if e < w.len() {
                    assert(w.skip(e + 1) =~= v.skip(next as int));
                } else {
                    assert(w.skip(e) =~= v.skip(next as int));
                }
                assert(header_pairs(w) == seq![pair_of_line(line)] + header_pairs(
                    v.skip(next as int),
                ));
                lemma_pair_views_push(headers@, pair);
                assert(pair_views(headers@).push((pair.0@, pair.1@)) + header_pairs(
                    v.skip(next as int),
                ) =~= pair_views(headers@) + (seq![pair_of_line(line)] + header_pairs(
                    v.skip(next as int),
                )));
            }
            headers.push(pair);
            pos = next;
        }
        let pat = blank_sep_pat();
        let bp = match find_pat(value, 0, pat.as_slice()) {
            Some(i) => {
                proof {
                    lemma_first_match_val(v, blank_sep_lit(), 0, i as int);
                }
                i
            },
            None => {
                proof {
                    lemma_first_match_none(v, blank_sep_lit(), 0);
                }
                n
            },
        };
        let body = copy_range(value, bp, n);
        proof {
            assert(body@ =~= body_of(v));
        }
        Ok(Message { mailer: Some(mailer), headers, body })
    }
}

/// One rendered header line: the key, `: `, the value.
pub open spec fn pair_line(p: (Seq<u8>, Seq<u8>)) -> Seq<u8> {
    p.0 + colon_sp_lit() + p.1
}

/// The rendered header block: one line per pair, joined by line feeds,
/// without a trailing line feed.
pub open spec fn pairs_text(hs: Seq<(Seq<u8>, Seq<u8>)>) -> Seq<u8>
    decreases hs.len(),
{
    if hs.len() == 0 {
        Seq::empty()
    } else if hs.len() == 1 {
        pair_line(hs[0])
    } else {
        pair_line(hs[0]) + seq![10u8] + pairs_text(hs.drop_first())
    }
}

/// The rendered raw message: the mailer line, the header lines, and the
/// body, which carries its own leading blank separator.
pub open spec fn raw_text(m_line: Seq<u8>, hs: Seq<(Seq<u8>, Seq<u8>)>, body: Seq<u8>) -> Seq<
    u8,
> {
    if hs.len() == 0 {
        m_line + body
    } else {
        m_line + seq![10u8] + pairs_text(hs) + body
    }
}

/// The rendered mailer line: `From`, the daemon, and the formatted date
/// (empty when the instant cannot carry a four-digit year).
pub open spec fn mailer_line_text(m: MailerModel) -> Seq<u8> {
    word_from_lit() + seq![32u8] + m.daemon + seq![32u8] + (if 0 <= m.date
        <= crate::time::MAX_FORMAT_TS {
        crate::time::mailer_date_text(m.date)
    } else {
        Seq::<u8>::empty()
    })
}

impl Mailer {
    /// Renders this mailer back to a marker line.
    pub fn render(&self) -> (r: Vec<u8>)
        ensures
            r@ == mailer_line_text(self@),
    {
        let mut out = word_from_pat();
        out.push(32);
        push_bytes(&mut out, self.daemon.as_slice());
        out.push(32);
        if 0 <= self.date && self.date <= crate::time::MAX_FORMAT_TS {
            let d = crate::time::format_mailer_date(self.date);
            push_bytes(&mut out, d.as_slice());
            proof {
                assert(out@ =~= mailer_line_text(self@));
            }
        } else {
            proof {
                assert(out@ =~= mailer_line_text(self@));
            }
        }
        out
    }
}

proof fn lemma_pairs_text_snoc(hs: Seq<(Seq<u8>, Seq<u8>)>, p: (Seq<u8>, Seq<u8>))
    ensures
        pairs_text(hs.push(p)) == (if hs.len() == 0 {
            pair_line(p)
        } else {
            pairs_text(hs) + seq![10u8] + pair_line(p)
        }),
    decreases hs.len(),
{
    let t = hs.push(p);
    if hs.len() == 0 {
        assert(t.len() == 1);
        assert(t[0] == p);
    } else {
        assert(t[0] == hs[0]);
        assert(t.drop_first() =~= hs.drop_first().push(p));
        lemma_pairs_text_snoc(hs.drop_first(), p);
        if hs.len() == 1 {
            assert(pairs_text(t) == pair_line(hs[0]) + seq![10u8] + pair_line(p));
            assert(pairs_text(hs) == pair_line(hs[0]));
        } else {
            assert(pair_line(t[0]) + seq![10u8] + (pairs_text(hs.drop_first()) + seq![10u8]
                + pair_line(p)) =~= (pair_line(hs[0]) + seq![10u8] + pairs_text(hs.drop_first()))
                + seq![10u8] + pair_line(p));
        }
    }
}

impl Message {
    /// Renders this raw message back to text: the mailer line, the header
    /// lines, and the body.
    pub fn render(&self) -> (r: Vec<u8>)
        ensures
            r@ == raw_text(
                match self.mailer {
                    Some(m) => mailer_line_text(m@),
                    None => Seq::<u8>::empty(),
                },
                pair_views(self.headers@),
                self.body@,
            ),
    {
        let mut out = match &self.mailer {
            Some(m) => m.render(),
            None => Vec::new(),
        };
        let ghost m_line = out@;
        let ghost hs = pair_views(self.headers@);
        if self.headers.len() > 0 {
            out.push(10);
            let mut i: usize = 0;
            while i < self.headers.len()
                invariant
                    i <= self.headers@.len(),
                    hs == pair_views(self.headers@),
                    i == 0 ==> out@ == m_line + seq![10u8],
                    i > 0 ==> out@ == m_line + seq![10u8] + pairs_text(hs.take(i as int)),
                decreases self.headers@.len() - i,
            {
                if i > 0 {
                    out.push(10);
                }
                let pair = &self.headers[i];
                push_bytes(&mut out, pair.0.as_slice());
                let sep = crate::lit::colon_sp_pat();
                push_bytes(&mut out, sep.as_slice());
                push_bytes(&mut out, pair.1.as_slice());
                proof {
                    assert(hs[i as int] == (self.headers@[i as int].0@, self.headers@[i as int].1@));
                    assert(hs.take(i as int).push(hs[i as int]) =~= hs.take(i + 1));
                    lemma_pairs_text_snoc(hs.take(i as int), hs[i as int]);
                    assert(out@ =~= m_line + seq![10u8] + pairs_text(hs.take(i + 1)));
                }
                i = i + 1;
            }
            proof {
                assert(hs.take(hs.len() as int) =~= hs);
            }
        }
        push_bytes(&mut out, self.body.as_slice());
        proof {
            if hs.len() == 0 {
                assert(out@ =~= m_line + self.body@);
            } else {
                assert(out@ =~= m_line + seq![10u8] + pairs_text(hs) + self.body@);
            }
        }
        out
    }
}

/// A header key as parsing normalizes it: trimmed, nonempty, without line
/// feeds or colons.
pub open spec fn wf_key(k: Seq<u8>) -> bool {
    &&& k == trimmed(k)
    &&& k.len() > 0
    &&& forall|i: int| 0 <= i < k.len() ==> #[trigger] k[i] != 10 && k[i] != 58
}

/// A header value as parsing normalizes it: trimmed, without line feeds.
pub open spec fn wf_value(v: Seq<u8>) -> bool {
    &&& v == trimmed(v)
    &&& forall|i: int| 0 <= i < v.len() ==> #[trigger] v[i] != 10
}

/// A body as parsing produces it: empty, or starting with its blank-line
/// separator.
pub open spec fn wf_body_text(b: Seq<u8>) -> bool {
    b.len() == 0 || (b.len() >= 2 && b[0] == 10 && b[1] == 10)
}

proof fn lemma_trim_back_last(y: Seq<u8>)
    ensures
        trim_back(y).len() > 0 ==> !is_ws(trim_back(y).last()),
    decreases y.len(),
{
    if y.len() > 0 && is_ws(y.last()) {
        lemma_trim_back_last(y.drop_last());
    }
}

proof fn lemma_trim_back_nonempty(y: Seq<u8>)
    requires
        y.len() > 0,
        !is_ws(y[0]),
    ensures
        trim_back(y).len() > 0,
        trim_back(y)[0] == y[0],
    decreases y.len(),
{
    if is_ws(y.last()) {
        let z = y.drop_last();
        assert(z[0] == y[0]);
        lemma_trim_back_nonempty(z);
    }
}

/// A sequence equal to its own trim is untouched by either trim.
proof fn lemma_trim_fixpoint(v: Seq<u8>)
    requires
        v == trimmed(v),
    ensures
        trim_front(v) == v,
        trim_back(v) == v,
{
    if v.len() > 0 {
        crate::header::lemma_trimmed_first(v);
        lemma_trim_back_last(trim_front(v));
    }
}

/// Parsing one rendered header line gives the pair back.
proof fn lemma_pair_line_parses(k: Seq<u8>, v: Seq<u8>)
    requires
        wf_key(k),
        wf_value(v),
    ensures
        pair_of_line(pair_line((k, v))) == (k, v),
        trimmed(pair_line((k, v))).len() > 0,
        forall|i: int| 0 <= i < pair_line((k, v)).len() ==> #[trigger] pair_line((k, v))[i] != 10,
        pair_line((k, v)).len() > 0,
{
    let line = pair_line((k, v));
    assert(line.len() == k.len() + 2 + v.len());
    assert forall|i: int| 0 <= i < line.len() implies #[trigger] line[i] != 10 by {
        if i < k.len() {
            assert(line[i] == k[i]);
        } else if i == k.len() {
            assert(line[i] == 58);
        } else if i == k.len() + 1 {
            assert(line[i] == 32);
        } else {
            assert(line[i] == v[i - k.len() - 2]);
        }
    }
    assert forall|j: int| 0 <= j < k.len() implies line[j] != 58 by {
        assert(line[j] == k[j]);
    }
    assert(line[k.len() as int] == 58);
    lemma_sep_end_val(line, 58, k.len() as int);
    assert(line.take(k.len() as int) =~= k);
    lemma_trim_fixpoint(k);
    lemma_trim_fixpoint(v);
    assert(trimmed(k) == k);
    let tail = line.skip(k.len() as int + 1);
    assert(tail =~= seq![32u8] + v);
    assert(tail.drop_first() =~= v);
    assert(trim_front(tail) == v);
    assert(trimmed(tail) == v);
    assert(pair_of_line(line) == (k, v));
    crate::header::lemma_trimmed_first(k);
    assert(!is_ws(line[0]));
    assert(trim_front(line) == line);
    lemma_trim_back_nonempty(line);
}

/// The shape of a rendered header block: nonempty, line feeds only between
/// lines, never at either end and never adjacent.
proof fn lemma_pairs_text_shape(hs: Seq<(Seq<u8>, Seq<u8>)>)
    requires
        hs.len() > 0,
        forall|j: int| 0 <= j < hs.len() ==> wf_key(#[trigger] hs[j].0) && wf_value(hs[j].1),
    ensures
        pairs_text(hs).len() > 0,
        pairs_text(hs)[0] != 10,
        pairs_text(hs).last() != 10,
        forall|i: int|
            0 <= i < pairs_text(hs).len() - 1 ==> !(#[trigger] pairs_text(hs)[i] == 10
                && pairs_text(hs)[i + 1] == 10),
    decreases hs.len(),
{
    let line = pair_line(hs[0]);
    lemma_pair_line_parses(hs[0].0, hs[0].1);
    if hs.len() == 1 {
        assert(pairs_text(hs) == line);
    } else {
        let rest = hs.drop_first();
        assert(forall|j: int|
            0 <= j < rest.len() ==> wf_key(#[trigger] rest[j].0) && wf_value(rest[j].1));
        lemma_pairs_text_shape(rest);
        let pt = pairs_text(hs);
        let pr = pairs_text(rest);
        assert(pt == line + seq![10u8] + pr);
        assert(pt[0] == line[0]);
        assert(pt.last() == pr.last());
        assert forall|i: int| 0 <= i < pt.len() - 1 implies !(#[trigger] pt[i] == 10 && pt[i + 1]
            == 10) by {
            if i < line.len() {
                assert(pt[i] == line[i]);
            } else if i == line.len() {
                assert(pt[i + 1] == pr[0]);
            } else {
                assert(pt[i] == pr[i - line.len() - 1]);
                assert(pt[i + 1] == pr[i - line.len()]);
            }
        }
    }
}

/// Parsing the rendered header block and body gives the pairs back.
proof fn lemma_pairs_parse(hs: Seq<(Seq<u8>, Seq<u8>)>, body: Seq<u8>)
    requires
        hs.len() > 0,
        forall|j: int| 0 <= j < hs.len() ==> wf_key(#[trigger] hs[j].0) && wf_value(hs[j].1),
        wf_body_text(body),
    ensures
        header_pairs(pairs_text(hs) + body) == hs,
    decreases hs.len(),
{
    let line = pair_line(hs[0]);
    let r = pairs_text(hs) + body;
    lemma_pair_line_parses(hs[0].0, hs[0].1);
    if hs.len() == 1 {
        assert(r =~= line + body);
        if body.len() == 0 {
            assert forall|j: int| 0 <= j < r.len() implies r[j] != 10 by {
                assert(r[j] == line[j]);
            }
            lemma_sep_end_val(r, 10, r.len() as int);
            assert(r.take(r.len() as int) =~= line);
            assert(header_pairs(r) == seq![pair_of_line(line)] + header_pairs(
                r.skip(r.len() as int),
            ));
            assert(r.skip(r.len() as int) =~= Seq::<u8>::empty());
            assert(seq![(hs[0].0, hs[0].1)] + Seq::<(Seq<u8>, Seq<u8>)>::empty() =~= hs);
        } else {
            assert forall|j: int| 0 <= j < line.len() implies r[j] != 10 by {
                assert(r[j] == line[j]);
            }
            assert(r[line.len() as int] == body[0]);
            lemma_sep_end_val(r, 10, line.len() as int);
            assert(r.take(line.len() as int) =~= line);
            let rest = r.skip(line.len() as int + 1);
            assert(rest =~= body.skip(1));
            assert(rest.len() > 0);
            assert(rest[0] == body[1]);
            lemma_sep_end_val(rest, 10, 0);
            assert(rest.take(0) =~= Seq::<u8>::empty());
            assert(trimmed(Seq::<u8>::empty()).len() == 0);
            assert(header_pairs(rest) == Seq::<(Seq<u8>, Seq<u8>)>::empty());
            assert(seq![(hs[0].0, hs[0].1)] + Seq::<(Seq<u8>, Seq<u8>)>::empty() =~= hs);
        }
    } else {
        let rest_hs = hs.drop_first();
        assert(forall|j: int|
            0 <= j < rest_hs.len() ==> wf_key(#[trigger] rest_hs[j].0) && wf_value(rest_hs[j].1));
        assert(pairs_text(hs) == line + seq![10u8] + pairs_text(rest_hs));
        assert(r =~= line + seq![10u8] + (pairs_text(rest_hs) + body));
        assert forall|j: int| 0 <= j < line.len() implies r[j] != 10 by {
            assert(r[j] == line[j]);
        }
        assert(r[line.len() as int] == 10);
        lemma_sep_end_val(r, 10, line.len() as int);
        assert(r.take(line.len() as int) =~= line);
        let rest = r.skip(line.len() as int + 1);
        assert(rest =~= pairs_text(rest_hs) + body);
        lemma_pairs_parse(rest_hs, body);
        assert(header_pairs(r) == seq![(hs[0].0, hs[0].1)] + rest_hs);
        assert(seq![(hs[0].0, hs[0].1)] + rest_hs =~= hs);
    }
}

/// Round trip: rendering a parsed raw message back to text and parsing it
/// again yields the same mailer, the same header pairs and the same body.
/// The parts are as parsing normalizes them — keys and values trimmed, the
/// body behind its blank separator — so nothing changes on the second pass.
pub proof fn lemma_raw_round_trip(m_line: Seq<u8>, hs: Seq<(Seq<u8>, Seq<u8>)>, body: Seq<u8>)
    requires
        forall|i: int| 0 <= i < m_line.len() ==> #[trigger] m_line[i] != 10,
        forall|j: int| 0 <= j < hs.len() ==> wf_key(#[trigger] hs[j].0) && wf_value(hs[j].1),
        wf_body_text(body),
        mailer_model_of(m_line) is Ok,
    ensures
        raw_message_of(raw_text(m_line, hs, body)) == Ok::<MessageModel, ParseError>(
            MessageModel {
                mailer: Some(mailer_model_of(m_line)->Ok_0),
                headers: hs,
                body: body,
            },
        ),
{
    let v = raw_text(m_line, hs, body);
    if m_line.len() == 0 {
        assert(trim_front(m_line) == m_line);
        assert(trim_back(m_line) == m_line);
        assert(fields(trimmed(m_line), 32) == Seq::<Seq<u8>>::empty());
        assert(false);
    }
    if hs.len() == 0 {
        assert(v =~= m_line + body);
        if body.len() == 0 {
            assert(v =~= m_line);
            lemma_sep_end_val(v, 10, v.len() as int);
            assert(v.take(v.len() as int) =~= m_line);
            assert(v.skip(v.len() as int) =~= Seq::<u8>::empty());
            assert(header_pairs(Seq::<u8>::empty()) == Seq::<(Seq<u8>, Seq<u8>)>::empty());
            assert(Seq::<(Seq<u8>, Seq<u8>)>::empty() =~= hs);
            assert forall|j: int| 0 <= j implies !matches_at(v, blank_sep_lit(), j) by {
                if matches_at(v, blank_sep_lit(), j) {
                    assert(v[j] == 10);
                }
            }
            lemma_first_match_none(v, blank_sep_lit(), 0);
            assert(body_of(v) =~= body);
        } else {
            assert forall|j: int| 0 <= j < m_line.len() implies v[j] != 10 by {
                assert(v[j] == m_line[j]);
            }
            assert(v[m_line.len() as int] == body[0]);
            lemma_sep_end_val(v, 10, m_line.len() as int);
            assert(v.take(m_line.len() as int) =~= m_line);
            let rest = v.skip(m_line.len() as int + 1);
            assert(rest =~= body.skip(1));
            assert(rest[0] == body[1]);
            lemma_sep_end_val(rest, 10, 0);
            assert(rest.take(0) =~= Seq::<u8>::empty());
            assert(trimmed(Seq::<u8>::empty()).len() == 0);
            assert(header_pairs(rest) =~= hs);
            assert(matches_at(v, blank_sep_lit(), m_line.len() as int));
            assert forall|j: int| 0 <= j < m_line.len() implies !matches_at(
                v,
                blank_sep_lit(),
                j,
            ) by {
                assert(v[j] == m_line[j]);
            }
            lemma_first_match_val(v, blank_sep_lit(), 0, m_line.len() as int);
            assert(body_of(v) =~= body);
        }
    } else {
        let pt = pairs_text(hs);
        lemma_pairs_text_shape(hs);
        assert(v =~= m_line + seq![10u8] + pt + body);
        assert forall|j: int| 0 <= j < m_line.len() implies v[j] != 10 by {
            assert(v[j] == m_line[j]);
        }
        assert(v[m_line.len() as int] == 10);
        lemma_sep_end_val(v, 10, m_line.len() as int);
        assert(v.take(m_line.len() as int) =~= m_line);
        let rest = v.skip(m_line.len() as int + 1);
        assert(rest =~= pt + body);
        lemma_pairs_parse(hs, body);
        assert(header_pairs(rest) == hs);
        let pn: int = m_line.len() as int + 1 + pt.len() as int;
        if body.len() == 0 {
            assert forall|j: int| 0 <= j implies !matches_at(v, blank_sep_lit(), j) by {
                if matches_at(v, blank_sep_lit(), j) {
                    assert(v[j] == 10 && v[j + 1] == 10);
                    if j < m_line.len() {
                        assert(v[j] == m_line[j]);
                    } else if j == m_line.len() {
                        assert(v[j + 1] == pt[0]);
                    } else if j < pn - 1 {
                        assert(v[j] == pt[j - m_line.len() - 1]);
                        assert(v[j + 1] == pt[j - m_line.len()]);
                    } else if j == pn - 1 {
                        assert(v[j] == pt.last());
                    }
                }
            }
            lemma_first_match_none(v, blank_sep_lit(), 0);
            assert(body_of(v) =~= body);
        } else {
            assert(v[pn as int] == body[0]);
            assert(v[pn + 1] == body[1]);
            assert(matches_at(v, blank_sep_lit(), pn as int));
            assert forall|j: int| 0 <= j < pn implies !matches_at(v, blank_sep_lit(), j) by {
                if matches_at(v, blank_sep_lit(), j) {
                    assert(v[j] == 10 && v[j + 1] == 10);
                    if j < m_line.len() {
                        assert(v[j] == m_line[j]);
                    } else if j == m_line.len() {
                        assert(v[j + 1] == pt[0]);
                    } else if j < pn - 1 {
                        assert(v[j] == pt[j - m_line.len() - 1]);
                        assert(v[j + 1] == pt[j - m_line.len()]);
                    } else {
                        assert(v[j] == pt.last());
                    }
                }
            }
            lemma_first_match_val(v, blank_sep_lit(), 0, pn as int);
            assert(body_of(v) =~= body);
        }
    }
}

} // verus!
