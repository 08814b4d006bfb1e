//! User preferences. Only rendering reads them: configuration never feeds
//! back into parsing decisions. Loading and saving them from disk is the
//! embedding application's concern.

use vstd::prelude::*;

pub mod renderer;

use renderer::{email_is_default, Renderer};

verus! {

/// The whole configuration: the renderer's preferences.
#[derive(Debug)]
pub struct Config {
    pub renderer: Renderer,
}

impl Default for Config {
    /// The default configuration holds the default renderer preferences.
    fn default() -> (c: Config)
        ensures
            c.renderer.frontmatter.headers@.len() == 0,
            email_is_default(c.renderer.email),
    {
        Config { renderer: Renderer::default() }
    }
}

} // verus!
