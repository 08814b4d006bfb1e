use papr::config::renderer::Renderer;
use papr::header::{Email, Header, Person};
use papr::utils::{Color, TermColor};

fn v(s: &str) -> Vec<u8> {
    s.as_bytes().to_vec()
}

#[test]
fn default_color_is_white_terminal() {
    assert_eq!(Color::default(), Color::Term(TermColor::White));
    assert_eq!(TermColor::default(), TermColor::White);
}

#[test]
fn paint_returns_the_text_unchanged() {
    let color = Color::RGB(1, 2, 3);
    assert_eq!(color.paint(b"hello"), v("hello"));
}

#[test]
fn render_email_uses_configured_separator() {
    let config = Renderer::default();
    let email = Email { user: v("foo"), domain: v("bar.com") };
    assert_eq!(papr::renderer::email(&config, &email), v("foo@bar.com"));
}

#[test]
fn render_person_with_name() {
    let config = Renderer::default();
    let person = Person {
        name: Some(v("Foo Bar")),
        email: Email { user: v("foo"), domain: v("bar.com") },
    };
    assert_eq!(papr::renderer::person(&config, &person), v("Foo Bar foo@bar.com"));
}

#[test]
fn render_person_without_name() {
    let config = Renderer::default();
    let person = Person { name: None, email: Email { user: v("foo"), domain: v("bar.com") } };
    assert_eq!(papr::renderer::person(&config, &person), v("foo@bar.com"));
}

#[test]
fn render_date_header_formats_the_instant() {
    let config = Renderer::default();
    // 2022-06-08 15:00:01 UTC as epoch seconds.
    let (key, value) = papr::renderer::header(&config, &Header::Date(1654700401));
    assert_eq!(key, v("Date"));
    assert_eq!(String::from_utf8(value).unwrap(), "2022-06-08 15:00:01 UTC");
}

#[test]
fn render_other_header_keeps_key_and_value() {
    let config = Renderer::default();
    let (key, value) = papr::renderer::header(
        &config,
        &Header::Other(v("Message-Id"), v("<x@y>")),
    );
    assert_eq!(key, v("Message-Id"));
    assert_eq!(value, v("<x@y>"));
}

#[test]
fn render_message_display_text() {
    let config = Renderer::default();
    let text = "From git@z Thu Jan  1 00:00:00 1970\nTo: someone\nSubject: hi there\n\nbody text";
    let message = papr::message::Message::try_from(text.as_bytes()).unwrap();
    let rendered = papr::renderer::message(&config, &message);
    assert_eq!(
        String::from_utf8(rendered).unwrap(),
        "To: someone\nSubject: hi there\n\n\n\nbody text"
    );
}

#[test]
fn render_mailbox_concatenates_messages() {
    let config = Renderer::default();
    let input = "From a@z Thu Jan  1 00:00:00 1970\nA: 1\n\nx\nFrom b@z Thu Jan  1 00:00:00 1970\nB: 2\n\ny";
    let mailbox = papr::mailbox::Mailbox::try_from(input.as_bytes()).unwrap();
    let rendered = papr::renderer::mailbox(&config, &mailbox);
    assert_eq!(String::from_utf8(rendered).unwrap(), "A: 1\n\n\n\nx\nB: 2\n\n\n\ny");
}

#[test]
fn render_body_with_front_matter() {
    let body = papr::body::Body::from(b"\n\nintro\nX: 1\n---\nrest");
    let rendered = body.render();
    assert_eq!(String::from_utf8(rendered).unwrap(), "intro\n---\nX: 1\n---\nrest");
}
