//! A fully parsed message: the mailer marker, typed headers in original
//! order, and the parsed body. Classification is fail-fast: the first
//! header value its grammar refuses fails the whole message.

use vstd::prelude::*;

use crate::body::{body_model_of, Body, BodyModel};
use crate::err::ParseError;
use crate::header::{header_model_of, Header, HeaderModel};
use crate::lex::pair_views;

pub use crate::mail::{Mailer, MailerModel};

verus! {

/// The mathematical content of a parsed message.
pub struct MessageModel {
    pub mailer: Option<MailerModel>,
    pub headers: Seq<HeaderModel>,
    pub body: BodyModel,
}

/// A message: its mailer line, its classified headers (duplicates allowed,
/// original order kept) and its body.
#[derive(Debug, Clone, PartialEq, Eq)]
pub struct Message {
    pub mailer: Option<Mailer>,
    pub headers: Vec<Header>,
    pub body: Body,
}

/// The element views of a sequence of headers.
pub open spec fn header_views(s: Seq<Header>) -> Seq<HeaderModel> {
    s.map_values(|h: Header| h@)
}

pub proof fn lemma_header_views_push(s: Seq<Header>, h: Header)
    ensures
        header_views(s.push(h)) == header_views(s).push(h@),
{
    assert(header_views(s.push(h)) =~= header_views(s).push(h@));
}

impl View for Message {
    type V = MessageModel;

    open spec fn view(&self) -> MessageModel {
        MessageModel {
            mailer: match self.mailer {
                Some(m) => Some(m@),
                None => None,
            },
            headers: header_views(self.headers@),
            body: self.body@,
        }
    }
}

/// Classifies raw header pairs in order, failing on the first value its
/// grammar refuses.
pub open spec fn classify_pairs(ps: Seq<(Seq<u8>, Seq<u8>)>) -> Result<
    Seq<HeaderModel>,
    ParseError,
>
    decreases ps.len(),
{
    if ps.len() == 0 {
        Ok(Seq::empty())
    } else {
        match header_model_of(ps[0].0, ps[0].1) {
            Err(e) => Err(e),
            Ok(h) => match classify_pairs(ps.drop_first()) {
                Err(e) => Err(e),
                Ok(rest) => Ok(seq![h] + rest),
            },
        }
    }
}

/// What parsing a message span yields: the raw grammar splits it into a
/// mailer, header pairs and a body; the pairs classify in order and the
/// body parses through the front-matter grammar.
pub open spec fn message_model_of(v: Seq<u8>) -> Result<MessageModel, ParseError> {
    match crate::mail::raw_message_of(v) {
        Err(e) => Err(e),
        Ok(raw) => match classify_pairs(raw.headers) {
            Err(e) => Err(e),
            Ok(hs) => Ok(
                MessageModel { mailer: raw.mailer, headers: hs, body: body_model_of(raw.body) },
            ),
        },
    }
}

/// The model of a message parse result.
pub open spec fn message_result(r: Result<Message, ParseError>) -> Result<
    MessageModel,
    ParseError,
> {
    match r {
        Ok(m) => Ok(m@),
        Err(e) => Err(e),
    }
}

impl Message {
    /// Parses one message span into its typed form.
    #[verifier::rlimit(60)]
    pub fn try_from(value: &[u8]) -> (r: Result<Message, ParseError>)
        ensures
            message_result(r) == message_model_of(value@),
    {
        let raw = match crate::mail::Message::try_from(value) {
            Ok(m) => m,
            Err(e) => {
                return Err(e);
            },
        };
        let ghost raw_model = raw@;
        let crate::mail::Message { mailer, headers: raw_pairs, body: raw_body } = raw;
        let ghost pairs = pair_views(raw_pairs@);
        proof {
            assert(raw_model.headers == pairs);
            assert(raw_model.body == raw_body@);
        }
        let mut headers: Vec<Header> = Vec::new();
        let mut i: usize = 0;
        proof {
            assert(pairs.skip(0) =~= pairs);
        }
        while i < raw_pairs.len()
            invariant
                i <= raw_pairs@.len(),
                pairs == pair_views(raw_pairs@),
                crate::mail::raw_message_of(value@) == Ok::<crate::mail::MessageModel, ParseError>(
                    raw_model,
                ),
                raw_model.headers == pairs,
                raw_model.body == raw_body@,
                match classify_pairs(pairs.skip(i as int)) {
                    Ok(rest) => classify_pairs(pairs) == Ok::<Seq<HeaderModel>, ParseError>(
                        header_views(headers@) + rest,
                    ),
                    Err(e) => classify_pairs(pairs) == Err::<Seq<HeaderModel>, ParseError>(e),
                },
            decreases raw_pairs@.len() - i,
        {
            let pair = &raw_pairs[i];
            proof {
                assert(pairs[i as int] == (raw_pairs@[i as int].0@, raw_pairs@[i as int].1@));
                assert(pairs.skip(i as int)[0] == pairs[i as int]);
                assert(pairs.skip(i as int).drop_first() =~= pairs.skip(i as int + 1));
            }
            match Header::try_from(pair.0.as_slice(), pair.1.as_slice()) {
                Ok(h) => {
                    proof {
                        lemma_header_views_push(headers@, h);
                        if classify_pairs(pairs.skip(i as int + 1)) is Ok {
                            let rest = classify_pairs(pairs.skip(i as int + 1))->Ok_0;
                            assert(header_views(headers@).push(h@) + rest =~= header_views(
                                headers@,
                            ) + (seq![h@] + rest));
                        }
                    }
                    headers.push(h);
                },
                Err(e) => {
                    proof {
                        assert(classify_pairs(pairs.skip(i as int)) == Err::<
                            Seq<HeaderModel>,
                            ParseError,
                        >(e));
                    }
                    return Err(e);
                },
            }
            i = i + 1;
        }
        proof {
            assert(pairs.skip(pairs.len() as int) =~= Seq::<(Seq<u8>, Seq<u8>)>::empty());
            assert(header_views(headers@) + Seq::<HeaderModel>::empty() =~= header_views(
                headers@,
            ));
        }
        let body = Body::from(raw_body.as_slice());
        Ok(Message { mailer, headers, body })
    }
}

} // verus!
