//! Rendering preferences: color choices and small text pieces for each
//! displayed field.

use vstd::prelude::*;

use crate::utils::Color;
use crate::utils::TermColor;

verus! {

/// Preferences for rendering a mailbox.
#[derive(Debug)]
pub struct Renderer {
    pub frontmatter: Frontmatter,
    pub email: Email,
    pub person: Person,
}

/// Preferences for rendering front matter: per-header display names, as an
/// insertion-ordered key/value list.
#[derive(Debug)]
pub struct Frontmatter {
    pub headers: Vec<(Vec<u8>, Vec<u8>)>,
}

/// Preferences for rendering an address.
#[derive(Debug)]
pub struct Email {
    pub user_color: Color,
    pub domain_separator: Vec<u8>,
    pub domain_color: Color,
    pub ommit_domain: bool,
    pub prefix: Option<Vec<u8>>,
    pub suffix: Option<Vec<u8>>,
}

/// Preferences for rendering a person.
#[derive(Debug)]
pub struct Person {
    pub name_color: Color,
    pub ommit_email: bool,
}

/// The default address preferences: an `@` separator, angle-bracket
/// wrapping, default colors, nothing omitted.
pub open spec fn email_is_default(c: Email) -> bool {
    &&& c.user_color == Color::Term(TermColor::White)
    &&& c.domain_separator@ == seq![64u8]
    &&& c.domain_color == Color::Term(TermColor::White)
    &&& c.ommit_domain == false
    &&& c.prefix is Some && c.prefix->0@ == seq![60u8]
    &&& c.suffix is Some && c.suffix->0@ == seq![62u8]
}

impl Default for Frontmatter {
    /// The default front-matter preferences name no headers.
    fn default() -> (c: Frontmatter)
        ensures
            c.headers@.len() == 0,
    {
        Frontmatter { headers: Vec::new() }
    }
}

impl Default for Person {
    /// The default person preferences: default name color, address shown.
    fn default() -> (c: Person)
        ensures
            c == (Person { name_color: Color::Term(TermColor::White), ommit_email: false }),
    {
        Person { name_color: Color::default(), ommit_email: false }
    }
}

impl Default for Email {
    fn default() -> (c: Email)
        ensures
            email_is_default(c),
    {
        let mut sep: Vec<u8> = Vec::new();
        sep.push(64);
        let mut pre: Vec<u8> = Vec::new();
        pre.push(60);
        let mut suf: Vec<u8> = Vec::new();
        suf.push(62);
        proof {
            assert(sep@ =~= seq![64u8]);
            assert(pre@ =~= seq![60u8]);
            assert(suf@ =~= seq![62u8]);
        }
        Email {
            user_color: Color::default(),
            domain_separator: sep,
            domain_color: Color::default(),
            ommit_domain: false,
            prefix: Some(pre),
            suffix: Some(suf),
        }
    }
}

impl Default for Renderer {
    /// The default renderer preferences combine the field defaults.
    fn default() -> (c: Renderer)
        ensures
            c.frontmatter.headers@.len() == 0,
            email_is_default(c.email),
            c.person == (Person { name_color: Color::Term(TermColor::White), ommit_email: false }),
    {
        Renderer {
            frontmatter: Frontmatter::default(),
            email: Email::default(),
            person: Person::default(),
        }
    }
}

} // verus!
