//! The archive level: an ordered mailbox of parsed messages. Parsing is
//! whole-batch atomic: the first message that fails aborts the archive.

use vstd::prelude::*;

use crate::err::ParseError;
use crate::message::{message_model_of, Message, MessageModel};
use crate::utils::{capture_messages, spans_of};

verus! {

/// The mathematical content of a parsed mailbox.
pub struct MailboxModel {
    pub messages: Seq<MessageModel>,
}

/// An ordered mailbox: the archive's messages in input order.
#[derive(Debug, PartialEq, Eq)]
pub struct Mailbox {
    pub messages: Vec<Message>,
}

/// The element views of a sequence of messages.
pub open spec fn message_views(s: Seq<Message>) -> Seq<MessageModel> {
    s.map_values(|m: Message| m@)
}

pub proof fn lemma_message_views_push(s: Seq<Message>, m: Message)
    ensures
        message_views(s.push(m)) == message_views(s).push(m@),
{
    assert(message_views(s.push(m)) =~= message_views(s).push(m@));
}

impl View for Mailbox {
    type V = MailboxModel;

    open spec fn view(&self) -> MailboxModel {
        MailboxModel { messages: message_views(self.messages@) }
    }
}

/// Parses a sequence of message spans in order, failing on the first span
/// that does not parse.
pub open spec fn parse_spans(spans: Seq<Seq<u8>>) -> Result<Seq<MessageModel>, ParseError>
    decreases spans.len(),
{
    if spans.len() == 0 {
        Ok(Seq::empty())
    } else {
        match message_model_of(spans[0]) {
            Err(e) => Err(e),
            Ok(m) => match parse_spans(spans.drop_first()) {
                Err(e) => Err(e),
                Ok(rest) => Ok(seq![m] + rest),
            },
        }
    }
}

/// What parsing an archive yields: its spans, each parsed as a message, in
/// original order.
pub open spec fn mailbox_model_of(s: Seq<u8>) -> Result<MailboxModel, ParseError> {
    match parse_spans(spans_of(s)) {
        Err(e) => Err(e),
        Ok(ms) => Ok(MailboxModel { messages: ms }),
    }
}

/// The model of a mailbox parse result.
pub open spec fn mailbox_result(r: Result<Mailbox, ParseError>) -> Result<
    MailboxModel,
    ParseError,
> {
    match r {
        Ok(m) => Ok(m@),
        Err(e) => Err(e),
    }
}

impl Mailbox {
    /// Parses a whole archive into its ordered messages.
    pub fn try_from(input: &[u8]) -> (r: Result<Mailbox, ParseError>)
        ensures
            mailbox_result(r) == mailbox_model_of(input@),
    {
        let spans = capture_messages(input);
        let ghost sp = crate::lex::views_of(spans@);
        let mut messages: Vec<Message> = Vec::new();
        let mut i: usize = 0;
        proof {
            assert(sp.skip(0) =~= sp);
        }
        while i < spans.len()
            invariant
                i <= spans@.len(),
                sp == crate::lex::views_of(spans@),
                sp == spans_of(input@),
                match parse_spans(sp.skip(i as int)) {
                    Ok(rest) => parse_spans(sp) == Ok::<Seq<MessageModel>, ParseError>(
                        message_views(messages@) + rest,
                    ),
                    Err(e) => parse_spans(sp) == Err::<Seq<MessageModel>, ParseError>(e),
                },
            decreases spans@.len() - i,
        {
            let span = &spans[i];
            proof {
                assert(sp[i as int] == spans@[i as int]@);
                assert(sp.skip(i as int)[0] == sp[i as int]);
                assert(sp.skip(i as int).drop_first() =~= sp.skip(i as int + 1));
            }
            match Message::try_from(span.as_slice()) {
                Ok(m) => {
                    proof {
                        lemma_message_views_push(messages@, m);
                        if parse_spans(sp.skip(i as int + 1)) is Ok {
                            let rest = parse_spans(sp.skip(i as int + 1))->Ok_0;
                            assert(message_views(messages@).push(m@) + rest =~= message_views(
                                messages@,
                            ) + (seq![m@] + rest));
                        }
                    }
                    messages.push(m);
                },
                Err(e) => {
                    return Err(e);
                },
            }
            i = i + 1;
        }
        proof {
            assert(sp.skip(sp.len() as int) =~= Seq::<Seq<u8>>::empty());
            assert(message_views(messages@) + Seq::<MessageModel>::empty() =~= message_views(
                messages@,
            ));
        }
        Ok(Mailbox { messages })
    }
}

} // verus!
