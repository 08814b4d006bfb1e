//! Rendering of the parsed model into display text, under the user's
//! preferences. Rendering is read-only over the model and never feeds back
//! into parsing.

use vstd::prelude::*;

use crate::config::renderer::Renderer;
use crate::header::{
    subject_render_model, Header, HeaderModel, Person, PersonModel, Email, EmailModel,
};
use crate::lex::push_bytes;
use crate::lit::{
    colon_sp_lit, colon_sp_pat, disp_author_lit, disp_author_pat, disp_date_lit, disp_date_pat,
    disp_subject_lit, disp_subject_pat, word_from_lit, word_from_pat,
};
use crate::body::BodyModel;
use crate::mailbox::{message_views, Mailbox, MailboxModel};
use crate::message::{header_views, Message, MessageModel};
use crate::time::{format_utc, utc_text, MAX_FORMAT_TS};

verus! {

/// The display text of an address: the user part, the configured
/// separator, the domain part.
pub open spec fn email_text(config: &Renderer, e: EmailModel) -> Seq<u8> {
    e.user + config.email.domain_separator@ + e.domain
}

/// The display text of a person: the name, a space and the address, or the
/// address alone.
pub open spec fn person_text(config: &Renderer, p: PersonModel) -> Seq<u8> {
    match p.name {
        Some(n) => n + seq![32u8] + email_text(config, p.email),
        None => email_text(config, p.email),
    }
}

/// The display text of a header date: empty when the instant cannot be
/// formatted with a four-digit year.
pub open spec fn date_text(t: i64) -> Seq<u8> {
    if 0 <= t <= MAX_FORMAT_TS {
        utc_text(t)
    } else {
        Seq::<u8>::empty()
    }
}

/// The display key and value of a classified header.
pub open spec fn header_text(config: &Renderer, h: HeaderModel) -> (Seq<u8>, Seq<u8>) {
    match h {
        HeaderModel::From(p) => (word_from_lit(), person_text(config, p)),
        HeaderModel::Date(t) => (disp_date_lit(), date_text(t)),
        HeaderModel::Author(p) => (disp_author_lit(), person_text(config, p)),
        HeaderModel::Subject(s) => (disp_subject_lit(), subject_render_model(s)),
        HeaderModel::Other(k, v) => (k, v),
    }
}

/// One rendered `key: value` display line.
pub open spec fn display_line(kv: (Seq<u8>, Seq<u8>)) -> Seq<u8> {
    kv.0 + colon_sp_lit() + kv.1 + seq![10u8]
}

/// The rendered header block: one display line per header, in order.
pub open spec fn headers_text(config: &Renderer, hs: Seq<HeaderModel>) -> Seq<u8>
    decreases hs.len(),
{
    if hs.len() == 0 {
        Seq::empty()
    } else {
        headers_text(config, hs.drop_last()) + display_line(header_text(config, hs.last()))
    }
}

/// The rendered footer block: one display line per footer, in order.
pub open spec fn footers_text(fs: Seq<(Seq<u8>, Seq<u8>)>) -> Seq<u8>
    decreases fs.len(),
{
    if fs.len() == 0 {
        Seq::empty()
    } else {
        footers_text(fs.drop_last()) + display_line(fs.last())
    }
}

/// The display text of a body: plain text verbatim; front matter followed
/// by its footer lines and a blank line, then the body text if any remains.
pub open spec fn body_text(b: BodyModel) -> Seq<u8> {
    match b {
        BodyModel::Simple(t) => t,
        BodyModel::WithFrontMatter { front_matter, footers, body } => front_matter + footers_text(
            footers,
        ) + seq![10u8] + body,
        BodyModel::OnlyFrontMatter { front_matter, footers } => front_matter + footers_text(
            footers,
        ) + seq![10u8],
    }
}

/// The display text of a message: its header lines, a blank line, its
/// body.
pub open spec fn message_text(config: &Renderer, m: MessageModel) -> Seq<u8> {
    headers_text(config, m.headers) + seq![10u8] + body_text(m.body)
}

/// The display text of a mailbox: its messages' texts, in order.
pub open spec fn mailbox_text(config: &Renderer, mb: MailboxModel) -> Seq<u8>
    decreases mb.messages.len(),
{
    if mb.messages.len() == 0 {
        Seq::empty()
    } else {
        mailbox_text(config, MailboxModel { messages: mb.messages.drop_last() }) + message_text(
            config,
            mb.messages.last(),
        )
    }
}

/// Renders an address under the configured colors and separator.
pub fn email(config: &Renderer, e: &Email) -> (r: Vec<u8>)
    ensures
        r@ == email_text(config, e@),
{
    let mut out = config.email.user_color.paint(e.user.as_slice());
    push_bytes(&mut out, config.email.domain_separator.as_slice());
    let domain = config.email.domain_color.paint(e.domain.as_slice());
    push_bytes(&mut out, domain.as_slice());
    out
}

/// Renders a person: the display name when present, then the address.
pub fn person(config: &Renderer, p: &Person) -> (r: Vec<u8>)
    ensures
        r@ == person_text(config, p@),
{
    match &p.name {
        Some(n) => {
            let mut out = config.person.name_color.paint(n.as_slice());
            out.push(32);
            let e = email(config, &p.email);
            push_bytes(&mut out, e.as_slice());
            proof {
                assert(out@ =~= p@.name->0 + seq![32u8] + email_text(config, p@.email));
            }
            out
        },
        None => email(config, &p.email),
    }
}

/// Renders a header as its display key and value.
pub fn header(config: &Renderer, h: &Header) -> (r: (Vec<u8>, Vec<u8>))
    ensures
        (r.0@, r.1@) == header_text(config, h@),
{
    match h {
        Header::From(p) => (word_from_pat(), person(config, p)),
        Header::Date(t) => {
            let value = if 0 <= *t && *t <= MAX_FORMAT_TS {
                format_utc(*t)
            } else {
                Vec::new()
            };
            proof {
                assert(value@ == date_text(h@->Date_0));
            }
            (disp_date_pat(), value)
        },
        Header::Author(p) => (disp_author_pat(), person(config, p)),
        Header::Subject(s) => (disp_subject_pat(), s.render()),
        Header::Other(k, v) => {
            let ck = crate::lex::copy_range(k.as_slice(), 0, k.len());
            let cv = crate::lex::copy_range(v.as_slice(), 0, v.len());
            proof {
                assert(ck@ =~= k@);
                assert(cv@ =~= v@);
            }
            (ck, cv)
        },
    }
}

/// Appends one `key: value` display line to `out`.
fn push_display_line(out: &mut Vec<u8>, key: &Vec<u8>, value: &Vec<u8>)
    ensures
        final(out)@ == old(out)@ + display_line((key@, value@)),
{
    push_bytes(out, key.as_slice());
    let sep = colon_sp_pat();
    push_bytes(out, sep.as_slice());
    push_bytes(out, value.as_slice());
    out.push(10);
    proof {
        assert(out@ =~= old(out)@ + display_line((key@, value@)));
    }
}

/// Renders a message: each header as a `key: value` line, a blank line,
/// then the body with its footers when it carries front matter.
pub fn message(config: &Renderer, m: &Message) -> (r: Vec<u8>)
    ensures
        r@ == message_text(config, m@),
{
    let mut out: Vec<u8> = Vec::new();
    let ghost hs = header_views(m.headers@);
    let mut i: usize = 0;
    proof {
        assert(out@ =~= headers_text(config, hs.take(0)));
    }
    while i < m.headers.len()
        invariant
            i <= m.headers@.len(),
            hs == header_views(m.headers@),
            out@ == headers_text(config, hs.take(i as int)),
        decreases m.headers@.len() - i,
    {
        let (key, value) = header(config, &m.headers[i]);
        push_display_line(&mut out, &key, &value);
        proof {
            let t1 = hs.take(i + 1);
            assert(t1.drop_last() =~= hs.take(i as int));
            assert(t1.last() == hs[i as int]);
            assert(hs[i as int] == m.headers@[i as int]@);
        }
        i = i + 1;
    }
    proof {
        assert(hs.take(hs.len() as int) =~= hs);
    }
    out.push(10);
    let ghost head = headers_text(config, hs) + seq![10u8];
    proof {
        assert(out@ =~= head);
    }
    match &m.body {
        crate::body::Body::Simple(t) => {
            push_bytes(&mut out, t.as_slice());
        },
        crate::body::Body::WithFrontMatter { front_matter, footers, body } => {
            push_bytes(&mut out, front_matter.as_slice());
            push_footers(&mut out, footers);
            out.push(10);
            push_bytes(&mut out, body.as_slice());
            proof {
                assert(out@ =~= head + (front_matter@ + footers_text(
                    crate::lex::pair_views(footers@),
                ) + seq![10u8] + body@));
            }
        },
        crate::body::Body::OnlyFrontMatter { front_matter, footers } => {
            push_bytes(&mut out, front_matter.as_slice());
            push_footers(&mut out, footers);
            out.push(10);
            proof {
                assert(out@ =~= head + (front_matter@ + footers_text(
                    crate::lex::pair_views(footers@),
                ) + seq![10u8]));
            }
        },
    }
    out
}

/// Appends the footer lines to `out`, in order.
pub(crate) fn push_footers(out: &mut Vec<u8>, footers: &Vec<(Vec<u8>, Vec<u8>)>)
    ensures
        final(out)@ == old(out)@ + footers_text(crate::lex::pair_views(footers@)),
{
    let ghost fs = crate::lex::pair_views(footers@);
    let mut i: usize = 0;
    proof {
        assert(old(out)@ + footers_text(fs.take(0)) =~= old(out)@);
    }
    while i < footers.len()
        invariant
            i <= footers@.len(),
            fs == crate::lex::pair_views(footers@),
            out@ == old(out)@ + footers_text(fs.take(i as int)),
        decreases footers@.len() - i,
    {
        let f = &footers[i];
        push_display_line(out, &f.0, &f.1);
        proof {
            let t1 = fs.take(i + 1);
            assert(t1.drop_last() =~= fs.take(i as int));
            assert(t1.last() == fs[i as int]);
            assert(fs[i as int] == (footers@[i as int].0@, footers@[i as int].1@));
            assert(out@ =~= old(out)@ + footers_text(t1));
        }
        i = i + 1;
    }
    proof {
        assert(fs.take(fs.len() as int) =~= fs);
    }
}

/// Renders a whole mailbox: each message's text, in order.
pub fn mailbox(config: &Renderer, mb: &Mailbox) -> (r: Vec<u8>)
    ensures
        r@ == mailbox_text(config, mb@),
{
    let mut out: Vec<u8> = Vec::new();
    let ghost ms = message_views(mb.messages@);
    let mut i: usize = 0;
    proof {
        assert(out@ =~= mailbox_text(config, MailboxModel { messages: ms.take(0) }));
    }
    while i < mb.messages.len()
        invariant
            i <= mb.messages@.len(),
            ms == message_views(mb.messages@),
            out@ == mailbox_text(config, MailboxModel { messages: ms.take(i as int) }),
        decreases mb.messages@.len() - i,
    {
        let text = message(config, &mb.messages[i]);
        push_bytes(&mut out, text.as_slice());
        proof {
            let t1 = ms.take(i + 1);
            assert(t1.drop_last() =~= ms.take(i as int));
            assert(t1.last() == ms[i as int]);
            assert(ms[i as int] == mb.messages@[i as int]@);
        }
        i = i + 1;
    }
    proof {
        assert(ms.take(ms.len() as int) =~= ms);
    }
    out
}

} // verus!
