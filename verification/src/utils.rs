//! Timestamp parsing for the `after` filter. A timestamp's text is mapped
//! to a plain nanosecond count so the filter's comparison is verified
//! arithmetic; only the parse itself is delegated to the date-time crate.

use crate::entry::LogEntry;
use vstd::prelude::*;

verus! {

/// The instant an RFC 3339 timestamp string denotes, as non-leap
/// nanoseconds since the Unix epoch — or `None` where the text does not
/// parse, or denotes an instant outside the range an `i64` nanosecond
/// count can hold.
pub uninterp spec fn parse_ts(s: Seq<char>) -> Option<i64>;

/// Relies on `chrono::DateTime::parse_from_rfc3339` (with `with_timezone`
/// and `timestamp_nanos_opt` converting the parsed value to a plain
/// nanosecond count): the result is a function of the string alone, and an
/// unparseable string yields `None`.
#[verifier::external_body]
pub fn parse_utc(s: &str) -> (r: Option<i64>)
    ensures
        r == parse_ts(s@),
{
    match chrono::DateTime::parse_from_rfc3339(s) {
        Ok(dt) => dt.with_timezone(&chrono::Utc).timestamp_nanos_opt(),
        Err(_) => None,
    }
}

/// Whether `e`'s timestamp denotes an instant strictly after `after`. An
/// entry whose timestamp does not parse never matches.
pub open spec fn entry_after(e: LogEntry, after: i64) -> bool {
    match parse_ts(e.timestamp@) {
        Some(t) => t > after,
        None => false,
    }
}

/// Whether `log`'s timestamp lies strictly after the instant `after`;
/// a log whose timestamp does not parse never matches.
pub fn matches_after(log: &LogEntry, after: i64) -> (r: bool)
    ensures
        r == entry_after(*log, after),
{
    match parse_utc(log.timestamp.as_str()) {
        Some(t) => t > after,
        None => false,
    }
}

} // verus!
