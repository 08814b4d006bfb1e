use papr::body::Body;
use papr::header::Header;

fn single_patch_raw() -> String {
    [
        "From git@z Thu Jan  1 00:00:00 1970",
        "Subject: [PATCH v1 1/10] patch-tree: foo message",
        "From: John Doe <\"john.doe at email.com\">",
        "Date: Fri, 08 Jun 2022 12:00:01 -0300",
        "Message-Id: <20220608-john-doe@email.com>",
        "MIME-Version: 1.0",
        "Content-Type: text/plain; charset=\"utf-8\"",
        "Content-Transfer-Encoding: 7bit",
        "",
        "A patch series for the foo subsystem.",
        "---",
        "foo: reticulate splines",
    ]
    .join("\n")
}

fn single_patch_classified() -> String {
    // The same message with an internet date whose weekday is consistent,
    // so that date classification succeeds.
    single_patch_raw().replace("Fri, 08 Jun 2022", "Wed, 08 Jun 2022")
}

fn pair(k: &str, v: &str) -> (Vec<u8>, Vec<u8>) {
    (k.as_bytes().to_vec(), v.as_bytes().to_vec())
}

#[test]
fn mail_test_mailer_try_from_empty() {
    let mailer = papr::mail::Mailer::try_from(b"");
    assert!(mailer.is_err());
}

#[test]
fn mail_test_mailer_try_from_git_date() {
    let mailer = papr::mail::Mailer::try_from(b"From git@z Thu Jan  1 00:00:00 1970");
    assert!(mailer.is_ok());
}

#[test]
fn mail_test_mailer_try_from_git_date_invalid() {
    let mailer = papr::mail::Mailer::try_from(b"From git@z Thu Jan  1 00:00:00");
    assert!(mailer.is_err());
}

#[test]
fn mail_test_message_try_from_empty() {
    let message = papr::mail::Message::try_from(b"");
    assert!(message.is_err());
}

#[test]
fn mail_test_message_try_from_git() {
    let text = single_patch_raw();
    let message = papr::mail::Message::try_from(text.as_bytes());
    assert!(message.is_ok());
    let message = message.unwrap();
    assert_eq!(message.mailer.unwrap().daemon, b"git@z".to_vec());

    assert_eq!(message.headers.len(), 7);
    assert_eq!(message.headers[0], pair("Subject", "[PATCH v1 1/10] patch-tree: foo message"));
    assert_eq!(message.headers[1], pair("From", "John Doe <\"john.doe at email.com\">"));
    assert_eq!(message.headers[2], pair("Date", "Fri, 08 Jun 2022 12:00:01 -0300"));
    assert_eq!(message.headers[3], pair("Message-Id", "<20220608-john-doe@email.com>"));
    assert_eq!(message.headers[4], pair("MIME-Version", "1.0"));
    assert_eq!(message.headers[5], pair("Content-Type", "text/plain; charset=\"utf-8\""));
    assert_eq!(message.headers[6], pair("Content-Transfer-Encoding", "7bit"));

    let break_point = text.find("\n\n").unwrap_or(text.len());
    assert_eq!(message.body, text.as_bytes()[break_point..].to_vec());
}

#[test]
fn message_test_mailer_try_from_empty() {
    let mailer = papr::message::Mailer::try_from(b"");
    assert!(mailer.is_err());
}

#[test]
fn message_test_mailer_try_from_git_date() {
    let mailer = papr::message::Mailer::try_from(b"From git@z Thu Jan  1 00:00:00 1970");
    assert!(mailer.is_ok());
}

#[test]
fn message_test_mailer_try_from_git_date_invalid() {
    let mailer = papr::message::Mailer::try_from(b"From git@z Thu Jan  1 00:00:00");
    assert!(mailer.is_err());
}

#[test]
fn message_test_message_try_from_empty() {
    let message = papr::message::Message::try_from(b"");
    assert!(message.is_err());
}

#[test]
fn message_test_message_try_from_git() {
    let text = single_patch_classified();
    let message = papr::message::Message::try_from(text.as_bytes());
    assert!(message.is_ok());
    let message = message.unwrap();
    assert_eq!(message.mailer.unwrap().daemon, b"git@z".to_vec());

    let classify = |k: &str, v: &str| Header::try_from(k.as_bytes(), v.as_bytes()).unwrap();
    assert_eq!(message.headers.len(), 7);
    assert_eq!(message.headers[0], classify("Subject", "[PATCH v1 1/10] patch-tree: foo message"));
    assert_eq!(message.headers[1], classify("From", "John Doe <\"john.doe at email.com\">"));
    assert_eq!(message.headers[2], classify("Date", "Wed, 08 Jun 2022 12:00:01 -0300"));
    assert_eq!(message.headers[3], classify("Message-Id", "<20220608-john-doe@email.com>"));
    assert_eq!(message.headers[4], classify("MIME-Version", "1.0"));
    assert_eq!(message.headers[5], classify("Content-Type", "text/plain; charset=\"utf-8\""));
    assert_eq!(message.headers[6], classify("Content-Transfer-Encoding", "7bit"));

    let break_point = text.find("\n\n").unwrap_or(text.len());
    assert_eq!(message.body, Body::from(&text.as_bytes()[break_point..]));
}

#[test]
fn parse_person_header() {
    let header = Header::try_from(b"From", b"Foo Bar <foo@baz.com>");
    assert!(header.is_ok());
}

#[test]
fn parse_date_header() {
    let header = Header::try_from(b"Date", b"Wed, 08 Jun 2022 12:00:01 -0300");
    assert!(header.is_ok());

    let header = header.unwrap();
    let expected = chrono::DateTime::parse_from_rfc2822("Wed, 08 Jun 2022 12:00:01 -0300")
        .unwrap()
        .timestamp();
    assert_eq!(header, Header::Date(expected));
    assert_eq!(header, Header::Date(1654700401));
}
