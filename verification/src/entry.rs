//! The unit of data: one stored log record, and the query specification a
//! retrieval is governed by. The store assigns id and timestamp at append
//! time, in the application layer, so every backend produces identically
//! shaped entries.

use vstd::prelude::*;

verus! {

/// One stored log record. All three fields are immutable once the entry is
/// appended: no update or delete operation exists in this system.
pub struct LogEntry {
    /// Unique, lexicographically sortable, time-ordered token, assigned at
    /// creation.
    pub id: String,
    /// Creation instant, captured once at append time, as RFC 3339 text
    /// with an explicit UTC offset (so chronological order is text order).
    pub timestamp: String,
    /// The caller's text, arbitrary.
    pub message: String,
}

impl Clone for LogEntry {
    fn clone(&self) -> (r: Self)
        ensures
            r == *self,
    {
        LogEntry {
            id: self.id.clone(),
            timestamp: self.timestamp.clone(),
            message: self.message.clone(),
        }
    }
}

/// Relies on `ulid::Ulid::new` and `Ulid::to_string`: a fresh identifier
/// drawn from the current time and randomness, rendered as 26 characters of
/// Crockford base32. Two calls may return anything; only the length is
/// promised.
#[verifier::external_body]
fn fresh_ulid() -> (r: String)
    ensures
        r@.len() == 26,
{
    ulid::Ulid::new().to_string()
}

/// Relies on `chrono::Utc::now` and `DateTime::to_rfc3339`: the current
/// instant as RFC 3339 text with an explicit UTC offset. The result depends
/// on the clock, so nothing is promised of it.
#[verifier::external_body]
fn now_rfc3339() -> (r: String) {
    chrono::Utc::now().to_rfc3339()
}

impl LogEntry {
    /// Builds a fresh entry: a newly generated id, the current instant as
    /// its timestamp, and the caller's message unchanged.
    pub fn new(message: String) -> (e: LogEntry)
        ensures
            e.message == message,
            e.id@.len() == 26,
    {
        LogEntry { id: fresh_ulid(), timestamp: now_rfc3339(), message }
    }
}

/// The retrieval parameters accepted from a caller: an optional lower
/// timestamp bound, an optional literal substring the message must contain,
/// and pagination. Absent limit and offset default to 50 and 0.
pub struct LogQuery {
    /// Keep only entries whose timestamp lies strictly after this instant;
    /// text that does not parse as a timestamp disables the filter.
    pub after: Option<String>,
    /// Keep only entries whose message contains this text literally,
    /// case-sensitive.
    pub contains: Option<String>,
    /// Return at most this many entries.
    pub limit: Option<usize>,
    /// Skip this many entries first.
    pub offset: Option<usize>,
}

} // verus!
