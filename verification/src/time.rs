//! Times, as the crate `chrono` reads and writes them.

use vstd::prelude::*;

verus! {

/// The instant that `text` denotes when chrono reads it as an RFC 3339 date and time,
/// in seconds since the Unix epoch; `None` where chrono refuses the text.
pub uninterp spec fn rfc3339_seconds(text: Seq<char>) -> Option<i64>;

/// What chrono writes in RFC 3339 for the instant `seconds` after the Unix epoch, in
/// UTC; `None` where chrono cannot represent the instant.
pub uninterp spec fn rfc3339_text(seconds: i64) -> Option<Seq<char>>;

/// What chrono writes in RFC 2822 for the instant `seconds` after the Unix epoch, in
/// UTC.
pub uninterp spec fn rfc2822_text(seconds: i64) -> Seq<char>;

/// The first second of the year 0 and the last second of the year 9999, the years in
/// which RFC 2822 can write a date.
pub const RFC2822_FIRST: i64 = -62_167_219_200;

pub const RFC2822_LAST: i64 = 253_402_300_799;

/// Whether the instant `seconds` after the Unix epoch lies in the years 0 to 9999.
pub open spec fn rfc2822_writes(seconds: i64) -> bool {
    RFC2822_FIRST <= seconds <= RFC2822_LAST
}

/// Calls `chrono::DateTime::parse_from_rfc3339` and takes the `timestamp` of what it
/// returns. Both are functions of the text alone, so the result goes by the name
/// [`rfc3339_seconds`]; nothing else is claimed of it.
#[verifier::external_body]
pub(crate) fn parse_rfc3339(text: &str) -> (seconds: Option<i64>)
    ensures
        seconds == rfc3339_seconds(text@),
{
    match chrono::DateTime::parse_from_rfc3339(text) {
        Ok(instant) => Some(instant.timestamp()),
        Err(_) => None,
    }
}

/// Calls `chrono::DateTime::from_timestamp` and `to_rfc3339` on what it returns. The
/// text is a function of the seconds alone and goes by the name [`rfc3339_text`];
/// nothing else is claimed of it.
#[verifier::external_body]
pub(crate) fn format_rfc3339(seconds: i64) -> (text: Option<String>)
    ensures
        text is Some == rfc3339_text(seconds) is Some,
        text is Some ==> text->0@ == rfc3339_text(seconds)->0,
{
    match chrono::DateTime::from_timestamp(seconds, 0) {
        Some(instant) => Some(instant.to_rfc3339()),
        None => None,
    }
}

/// Calls `chrono::DateTime::from_timestamp` and `to_rfc2822` on what it returns.
/// `to_rfc2822` panics outside the years 0 to 9999, which the precondition leaves
/// out. The text is a function of the seconds alone and goes by the name
/// [`rfc2822_text`]; nothing else is claimed of it.
#[verifier::external_body]
fn write_rfc2822(seconds: i64) -> (text: String)
    requires
        rfc2822_writes(seconds),
    ensures
        text@ == rfc2822_text(seconds),
{
    chrono::DateTime::from_timestamp(seconds, 0).unwrap_or_default().to_rfc2822()
}

/// The instant `seconds` after the Unix epoch as an RFC 2822 date and time in UTC;
/// `None` outside the years 0 to 9999.
pub fn format_rfc2822(seconds: i64) -> (text: Option<String>)
    ensures
        text is Some == rfc2822_writes(seconds),
        text is Some ==> text->0@ == rfc2822_text(seconds),
{
    if RFC2822_FIRST <= seconds && seconds <= RFC2822_LAST {
        Some(write_rfc2822(seconds))
    } else {
        None
    }
}

} // verus!
