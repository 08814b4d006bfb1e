//! A verified parser for mbox-style mail archives, specialized for
//! mailing-list patch submissions: it locates message boundaries, splits each
//! message into a mailer marker, typed headers and a body, and recognizes the
//! `[PATCH vN i/total]` subject convention and trailing front-matter blocks.

pub mod body;
pub mod cli;
pub mod config;
pub mod err;
pub mod header;
pub mod lex;
pub mod lit;
pub mod mail;
pub mod mailbox;
pub mod message;
pub mod time;
pub mod renderer;
pub mod utils;
