use papr::err::ParseError;
use papr::header::{Email, Person, Subject};

fn v(s: &str) -> Vec<u8> {
    s.as_bytes().to_vec()
}

#[test]
fn parse_person() {
    let person = Person::try_from(b"Foo Bar <foo.bar@bar.com>");
    assert!(person.is_ok());

    let person = person.unwrap();
    assert_eq!(person.name, Some(v("Foo Bar")));
    assert_eq!(person.email, Email::try_from(b"foo.bar@bar.com").unwrap());
}

#[test]
fn parse_subject() {
    let subject = Subject::try_from(b"[PATCH v1 1/1] foo: bar: baz");
    assert!(subject.is_ok());

    let subject = subject.unwrap();
    assert_eq!(
        subject,
        Subject::Patch {
            version: Some(1),
            index: Some((1, 1)),
            tags: vec![v("foo"), v("bar")],
            description: v("baz"),
        }
    );

    let subject = Subject::try_from(b"[PATCH 0/2] some example patch");
    assert!(subject.is_ok());

    let subject = subject.unwrap();
    assert_eq!(
        subject,
        Subject::Patch {
            version: None,
            index: Some((0, 2)),
            tags: vec![],
            description: v("some example patch"),
        }
    );

    let subject = Subject::try_from(b"foo: bar");
    assert!(subject.is_ok());

    let subject = subject.unwrap();
    assert_eq!(subject, Subject::Tagged { tags: vec![v("foo")], description: v("bar") });
}

#[test]
fn format_subject() {
    let subject = Subject::Patch {
        version: Some(1),
        index: Some((1, 1)),
        tags: vec![v("foo"), v("bar")],
        description: v("baz"),
    };
    assert_eq!(
        String::from_utf8(subject.render()).unwrap(),
        "\u{1b}[43m[PATCH v1 1/1]\u{1b}[49m \u{1b}[32mfoo: bar: \u{1b}[39mbaz"
    );

    let subject = Subject::Patch {
        version: None,
        index: Some((0, 2)),
        tags: vec![],
        description: v("some example patch"),
    };
    assert_eq!(String::from_utf8(subject.render()).unwrap(), "[PATCH 0/2] some example patch");

    let subject = Subject::Tagged { tags: vec![v("foo")], description: v("bar") };
    assert_eq!(String::from_utf8(subject.render()).unwrap(), "foo: bar");

    let subject = Subject::Simple(v("baz foo barbar"));
    assert_eq!(String::from_utf8(subject.render()).unwrap(), "baz foo barbar");
}

#[test]
fn subject_patch_boundary_case() {
    let subject = Subject::try_from(b"[PATCH v1 1/10] patch-tree: foo message").unwrap();
    assert_eq!(
        subject,
        Subject::Patch {
            version: Some(1),
            index: Some((1, 10)),
            tags: vec![v("patch-tree")],
            description: v("foo message"),
        }
    );
}

#[test]
fn subject_classification_is_total() {
    // Every value classifies; the empty value classifies as simple.
    assert_eq!(Subject::try_from(b"").unwrap(), Subject::Simple(v("")));
    assert_eq!(Subject::try_from(b"   ").unwrap(), Subject::Simple(v("")));
    assert_eq!(Subject::try_from(b"plain text").unwrap(), Subject::Simple(v("plain text")));
    // A bracket that is not a complete patch marker falls through.
    assert_eq!(Subject::try_from(b"[PATCH] hello").unwrap(), Subject::Simple(v("[PATCH] hello")));
    // A lone trailing colon leaves nothing for the description.
    assert_eq!(Subject::try_from(b"foo:").unwrap(), Subject::Simple(v("foo:")));
    // An empty tag segment stops the tag run.
    assert_eq!(
        Subject::try_from(b"a::b").unwrap(),
        Subject::Tagged { tags: vec![v("a")], description: v(":b") }
    );
}

#[test]
fn subject_version_overflow_drops_metadata() {
    // A version that overflows the machine integer is dropped, as standard
    // integer parsing would drop it, but the subject stays a patch.
    let subject = Subject::try_from(b"[PATCH v99999999999999999999 1/2] x").unwrap();
    assert_eq!(
        subject,
        Subject::Patch {
            version: None,
            index: Some((1, 2)),
            tags: vec![],
            description: v("x"),
        }
    );
}

#[test]
fn parse_person_obfuscated_boundary_case() {
    let person = Person::try_from(b"John Doe <\"john.doe at email.com\">").unwrap();
    assert_eq!(person.name, Some(v("John Doe")));
    assert_eq!(person.email, Email { user: v("john.doe"), domain: v("email.com") });
}

#[test]
fn parse_person_bare_bracket() {
    let person = Person::try_from(b"<foo@bar.com>").unwrap();
    assert_eq!(person.name, None);
    assert_eq!(person.email, Email { user: v("foo"), domain: v("bar.com") });
}

#[test]
fn parse_person_bare_quoted() {
    let person = Person::try_from(b"\"user at domain.com\"").unwrap();
    assert_eq!(person.name, None);
    assert_eq!(person.email, Email { user: v("user"), domain: v("domain.com") });
}

#[test]
fn parse_person_rejects_plain_text() {
    assert_eq!(Person::try_from(b"nonsense"), Err(ParseError::InvalidPerson));
}

#[test]
fn parse_email_splits_at_sign() {
    let email = Email::try_from(b"foo@bar.com").unwrap();
    assert_eq!(email, Email { user: v("foo"), domain: v("bar.com") });
}

#[test]
fn parse_email_splits_at_word() {
    let email = Email::try_from(b"foo at bar.com").unwrap();
    assert_eq!(email, Email { user: v("foo"), domain: v("bar.com") });
}

#[test]
fn parse_email_requires_two_parts() {
    assert_eq!(Email::try_from(b"a@b@c"), Err(ParseError::InvalidEmail));
    assert_eq!(Email::try_from(b"plain"), Err(ParseError::InvalidEmail));
    assert_eq!(Email::try_from(b"a at b at c"), Err(ParseError::InvalidEmail));
}
