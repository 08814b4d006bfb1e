use papr::body::Body;
use papr::err::ParseError;
use papr::mail;
use papr::mailbox::Mailbox;
use papr::utils::{capture_messages, find_messages};

fn v(s: &str) -> Vec<u8> {
    s.as_bytes().to_vec()
}

fn multi_foo_messages() -> String {
    [
        "From foo@z Thu Jan  1 00:00:00 1970",
        "Subject: foo one",
        "",
        "first body",
        "From foo@z Thu Jan  1 00:00:01 1970",
        "Subject: foo two",
        "",
        "second body",
        "From foo@z Thu Jan  1 00:00:02 1970",
        "Subject: foo three",
        "",
        "third body",
        "From foo@z Thu Jan  1 00:00:03 1970",
        "Subject: foo four",
        "",
        "fourth body",
    ]
    .join("\n")
}

fn multi_patches() -> String {
    [
        "From git@z Thu Jan  1 00:00:00 1970",
        "Subject: [PATCH 0/2] a patch series",
        "From: Foo Bar <foo@bar.com>",
        "Date: Wed, 08 Jun 2022 12:00:01 -0300",
        "",
        "An introduction to the series.",
        "From git@z Thu Jan  1 00:00:00 1970",
        "Subject: [PATCH v1 1/2] tree: first change",
        "From: Foo Bar <foo@bar.com>",
        "Date: Wed, 08 Jun 2022 12:00:02 -0300",
        "",
        "Motivation for the first change.",
        "---",
        "tree: reticulate splines",
        "From git@z Thu Jan  1 00:00:00 1970",
        "Subject: [PATCH v1 2/2] tree: second change",
        "From: Foo Bar <foo@bar.com>",
        "Date: Wed, 08 Jun 2022 12:00:03 -0300",
        "",
        "Motivation for the second change.",
        "---",
        "tree: unreticulate splines",
    ]
    .join("\n")
}

#[test]
fn find_messages_test() {
    let input = multi_foo_messages();
    let messages = find_messages(input.as_bytes());
    assert!(messages.len() == 4);
}

#[test]
fn capture_messages_test() {
    let input = multi_foo_messages();
    let messages = capture_messages(input.as_bytes());
    assert!(messages.len() == 4);
}

#[test]
fn capture_multi_patches_messages_test() {
    let input = multi_patches();
    let messages = capture_messages(input.as_bytes());
    assert!(messages.len() == 3);
}

#[test]
fn parse_mailbox() {
    let input = multi_patches();
    let mailbox = Mailbox::try_from(input.as_bytes());
    assert!(mailbox.is_ok());
    let mailbox = mailbox.unwrap();
    assert!(mailbox.messages.len() == 3);
}

#[test]
fn spans_reconstruct_archive() {
    // Concatenating the spans gives the archive back, byte for byte.
    for input in [
        multi_foo_messages(),
        multi_patches(),
        String::from(""),
        String::from("no boundaries here at all"),
        String::from("From a b c\nFrom d e f\n\nFrom g h i"),
    ] {
        let spans = capture_messages(input.as_bytes());
        let mut rebuilt: Vec<u8> = Vec::new();
        for span in &spans {
            rebuilt.extend_from_slice(span);
        }
        assert_eq!(rebuilt, input.as_bytes().to_vec());
    }
}

#[test]
fn digest_separator_boundary() {
    // The digest grammar: a `--` line, a digits line and a blank line before
    // a `From ` line; the boundary is the start of the `From ` line.
    let input = "From a@z Thu Jan  1 00:00:00 1970\n\nbody\n--\n1.2\n\nFrom b@z Thu Jan  1 00:00:00 1970\n\nbody";
    let starts = find_messages(input.as_bytes());
    assert_eq!(starts.len(), 2);
    let boundary = starts[1];
    assert!(input[boundary..].starts_with("From b@z"));
}

#[test]
fn empty_input_is_an_error() {
    assert_eq!(Mailbox::try_from(b""), Err(ParseError::EmptyInput));
    assert_eq!(mail::Message::try_from(b""), Err(ParseError::EmptyInput));
}

#[test]
fn mailer_alone_parses() {
    let message = mail::Message::try_from(b"From git@z Thu Jan  1 00:00:00 1970").unwrap();
    let mailer = message.mailer.unwrap();
    assert_eq!(mailer.daemon, v("git@z"));
    assert_eq!(mailer.date, 0);
    assert_eq!(message.headers.len(), 0);
    assert_eq!(message.body, v(""));
}

#[test]
fn mailer_missing_year_is_an_error() {
    assert_eq!(
        mail::Mailer::try_from(b"From git@z Thu Jan  1 00:00:00"),
        Err(ParseError::MalformedMailerLine)
    );
}

#[test]
fn mailer_bad_date_is_an_error() {
    assert_eq!(
        mail::Mailer::try_from(b"From git@z Xxx Yyy  1 00:00:00 1970"),
        Err(ParseError::InvalidTimestamp)
    );
}

#[test]
fn mailer_wrong_first_token_is_an_error() {
    assert_eq!(
        mail::Mailer::try_from(b"Fron git@z Thu Jan  1 00:00:00 1970"),
        Err(ParseError::MalformedMailerLine)
    );
}

#[test]
fn bad_header_date_fails_the_message() {
    let text = "From git@z Thu Jan  1 00:00:00 1970\nDate: nonsense\n\nbody";
    assert_eq!(papr::message::Message::try_from(text.as_bytes()), Err(ParseError::InvalidHeaderDate));
}

#[test]
fn bad_person_fails_the_message() {
    let text = "From git@z Thu Jan  1 00:00:00 1970\nFrom: nonsense\n\nbody";
    assert_eq!(papr::message::Message::try_from(text.as_bytes()), Err(ParseError::InvalidPerson));
}

#[test]
fn body_footer_order_boundary_case() {
    let body = Body::from(b"\n\nX: 1\nY: 2\n---\nhello");
    assert_eq!(
        body,
        Body::WithFrontMatter {
            front_matter: v(""),
            footers: vec![(v("X"), v("1")), (v("Y"), v("2"))],
            body: v("hello"),
        }
    );
}

#[test]
fn body_without_delimiter_is_simple() {
    let body = Body::from(b"\n\njust some text\nwith lines");
    assert_eq!(body, Body::Simple(v("\n\njust some text\nwith lines")));
}

#[test]
fn body_footer_scan_stops_at_blank_line() {
    let body = Body::from(b"\n\nprose text\n\nX: 1\n---\nrest");
    assert_eq!(
        body,
        Body::WithFrontMatter {
            front_matter: v("prose text"),
            footers: vec![(v("X"), v("1"))],
            body: v("rest"),
        }
    );
}

#[test]
fn body_footer_scan_stops_at_plain_line() {
    // A line without the `: ` separator ends the footer run and stays in
    // the front matter.
    let body = Body::from(b"\n\nprose text\nX: 1\n---\nrest");
    assert_eq!(
        body,
        Body::WithFrontMatter {
            front_matter: v("prose text"),
            footers: vec![(v("X"), v("1"))],
            body: v("rest"),
        }
    );
}

#[test]
fn front_matter_projection_is_idempotent() {
    let with = Body::WithFrontMatter {
        front_matter: v("intro"),
        footers: vec![(v("X"), v("1"))],
        body: v("rest"),
    };
    let once = with.front_matter_only();
    let twice = once.clone().front_matter_only();
    assert_eq!(once, twice);
    assert_eq!(
        once,
        Body::OnlyFrontMatter { front_matter: v("intro"), footers: vec![(v("X"), v("1"))] }
    );

    let simple = Body::Simple(v("text"));
    assert_eq!(simple.clone().front_matter_only(), simple);
}

#[test]
fn raw_message_round_trip() {
    // Rendering a parsed raw message and parsing it again yields the same
    // mailer, header pairs and body.
    let text = "From git@z Thu Jan  1 00:00:00 1970\nSubject: [PATCH 1/2] x\nOther:   spaced   \n\nbody text\n---\nmore";
    let first = mail::Message::try_from(text.as_bytes()).unwrap();
    let rendered = first.render();
    let second = mail::Message::try_from(rendered.as_slice()).unwrap();
    assert_eq!(first, second);
}

#[test]
fn raw_message_round_trip_without_body() {
    let text = "From git@z Thu Jan  1 00:00:00 1970\nA: 1\nB: 2";
    let first = mail::Message::try_from(text.as_bytes()).unwrap();
    let rendered = first.render();
    assert_eq!(rendered, v(text));
    let second = mail::Message::try_from(rendered.as_slice()).unwrap();
    assert_eq!(first, second);
}

#[test]
fn three_message_archive_in_order() {
    let input = multi_patches();
    let mailbox = Mailbox::try_from(input.as_bytes()).unwrap();
    assert_eq!(mailbox.messages.len(), 3);
    let subjects: Vec<_> = mailbox
        .messages
        .iter()
        .map(|m| match &m.headers[0] {
            papr::header::Header::Subject(s) => s.clone(),
            _ => panic!("first header should be the subject"),
        })
        .collect();
    assert_eq!(
        subjects[0],
        papr::header::Subject::Patch {
            version: None,
            index: Some((0, 2)),
            tags: vec![],
            description: v("a patch series"),
        }
    );
    assert_eq!(
        subjects[1],
        papr::header::Subject::Patch {
            version: Some(1),
            index: Some((1, 2)),
            tags: vec![v("tree")],
            description: v("first change"),
        }
    );
    assert_eq!(
        subjects[2],
        papr::header::Subject::Patch {
            version: Some(1),
            index: Some((2, 2)),
            tags: vec![v("tree")],
            description: v("second change"),
        }
    );
}
