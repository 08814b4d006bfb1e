use vstd::prelude::*;

verus! {

/// The kinds of failure that parsing an archive can report.
///
/// Parsing is fail-fast and whole-message atomic: the first sub-parse that
/// fails aborts the message, and in the archive pipeline the whole batch.
#[derive(Clone, Copy, Debug, PartialEq, Eq, Structural)]
pub enum ParseError {
    /// A zero-length message span.
    EmptyInput,
    /// A mailer line with too few tokens or one that does not start with `From`.
    MalformedMailerLine,
    /// A mailer line whose date tokens fail calendar parsing.
    InvalidTimestamp,
    /// A `Date` header value that is not a valid internet date.
    InvalidHeaderDate,
    /// A `From`/`Author` header value that no address grammar matches.
    InvalidPerson,
    /// An address that does not split into exactly a user and a domain.
    InvalidEmail,
    /// A subject that no subject grammar matches (structurally unreachable:
    /// the simple grammar accepts every value).
    InvalidSubject,
}

} // verus!
