//! Trusted bindings to the chrono crate: calendar parsing and formatting.
//! Each binding names its result with an uninterpreted spec function, since
//! the calendar arithmetic behind it is chrono's, not this library's.

use vstd::prelude::*;

verus! {

/// The last timestamp whose year has four digits (9999-12-31 23:59:59 UTC);
/// chrono documents panic-free formatting only up to four-digit years.
pub const MAX_FORMAT_TS: i64 = 253402300799;

/// What chrono's `DateTime::parse_from_str` returns, as epoch seconds, for a
/// mailer date string under the marker format `%a %b %e %H:%M:%S %Y %z`.
pub uninterp spec fn mailer_instant(s: Seq<u8>) -> Option<i64>;

/// Relies on chrono's `DateTime::parse_from_str` with the mbox marker format
/// `%a %b %e %H:%M:%S %Y %z`: the result depends on the text alone. Text
/// that is not UTF-8 cannot parse.
#[verifier::external_body]
pub fn parse_mailer_date(s: &[u8]) -> (r: Option<i64>)
    ensures
        r == mailer_instant(s@),
{
    let text = match core::str::from_utf8(s) {
        Ok(t) => t,
        Err(_) => return None,
    };
    chrono::DateTime::parse_from_str(text, "%a %b %e %H:%M:%S %Y %z").ok().map(|d| d.timestamp())
}

/// What chrono's `DateTime::parse_from_rfc2822` returns, as epoch seconds,
/// for a header date value.
pub uninterp spec fn rfc2822_instant(s: Seq<u8>) -> Option<i64>;

/// Relies on chrono's `DateTime::parse_from_rfc2822`: the result depends on
/// the text alone. Text that is not UTF-8 cannot parse.
#[verifier::external_body]
pub fn parse_rfc2822(s: &[u8]) -> (r: Option<i64>)
    ensures
        r == rfc2822_instant(s@),
{
    let text = match core::str::from_utf8(s) {
        Ok(t) => t,
        Err(_) => return None,
    };
    chrono::DateTime::parse_from_rfc2822(text).ok().map(|d| d.timestamp())
}

/// What chrono's `Display` for `DateTime<Utc>` prints for a timestamp, e.g.
/// `2022-06-08 15:00:01 UTC`.
pub uninterp spec fn utc_text(t: i64) -> Seq<u8>;

/// Relies on chrono's `DateTime::<Utc>::from_timestamp` and the `Display`
/// implementation of `DateTime<Utc>`: the text depends on the timestamp
/// alone. The bound keeps the timestamp within `from_timestamp`'s documented
/// range.
#[verifier::external_body]
pub fn format_utc(t: i64) -> (r: Vec<u8>)
    requires
        0 <= t <= MAX_FORMAT_TS,
    ensures
        r@ == utc_text(t),
{
    match chrono::DateTime::<chrono::Utc>::from_timestamp(t, 0) {
        Some(d) => format!("{}", d).into_bytes(),
        None => Vec::new(),
    }
}

/// What chrono's strftime formatting under `%a %b %e %H:%M:%S %Y` prints for
/// a timestamp, e.g. `Thu Jan  1 00:00:00 1970`.
pub uninterp spec fn mailer_date_text(t: i64) -> Seq<u8>;

/// Relies on chrono's `DateTime::<Utc>::from_timestamp` and `format` with
/// the mbox marker format `%a %b %e %H:%M:%S %Y`, whose items are all valid,
/// so formatting cannot fail: the text depends on the timestamp alone. The
/// bound keeps the year within four digits.
#[verifier::external_body]
pub fn format_mailer_date(t: i64) -> (r: Vec<u8>)
    requires
        0 <= t <= MAX_FORMAT_TS,
    ensures
        r@ == mailer_date_text(t),
{
    match chrono::DateTime::<chrono::Utc>::from_timestamp(t, 0) {
        Some(d) => d.format("%a %b %e %H:%M:%S %Y").to_string().into_bytes(),
        None => Vec::new(),
    }
}

} // verus!
