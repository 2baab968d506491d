//! The store contract: one capability interface over `{append, list,
//! count}`, so the retrieval pipeline is backend-agnostic. The in-process
//! variant implements it here; a durable variant lives with the embedding
//! program, behind its driver, and is held to the same shape of contract
//! by construction of the entries in this crate.

use crate::entry::LogEntry;
use crate::in_memory_store::{InMemoryStore, StoreError};
use vstd::prelude::*;

verus! {

/// A component satisfying the append/list/count contract over `LogEntry`.
/// A backend's mathematical value is the sequence of entries it holds;
/// `fallible()` says whether the backend can report failure at all (the
/// in-process store cannot; a durable one can).
pub trait LogStore: Sized {
    /// The entries this store holds, in insertion order.
    spec fn entries(&self) -> Seq<LogEntry>;

    /// Whether an operation on this backend can return an error.
    spec fn fallible(&self) -> bool;

    /// Appends one fresh entry made from `message`. On success the new
    /// entry stands at the end and is returned, every earlier entry
    /// untouched; failure comes only from a fallible backend, and then
    /// the append may or may not have landed — a retry can produce a
    /// duplicate entry with a different id.
    fn add_log(&mut self, message: String) -> (r: Result<LogEntry, StoreError>)
        ensures
            r matches Ok(e) ==> final(self).entries() == old(self).entries().push(e)
                && e.message == message,
            r is Err ==> old(self).fallible(),
    ;

    /// Every entry currently held, as one point-in-time snapshot copy.
    fn list_logs(&self) -> (r: Result<Vec<LogEntry>, StoreError>)
        ensures
            r matches Ok(v) ==> v@ == self.entries(),
            r is Err ==> self.fallible(),
    ;

    /// The number of entries currently held.
    fn count(&self) -> (r: Result<usize, StoreError>)
        ensures
            r matches Ok(n) ==> n == self.entries().len(),
            r is Err ==> self.fallible(),
    ;
}

impl LogStore for InMemoryStore {
    open spec fn entries(&self) -> Seq<LogEntry> {
        self@
    }

    /// The in-process store never fails.
    open spec fn fallible(&self) -> bool {
        false
    }

    fn add_log(&mut self, message: String) -> (r: Result<LogEntry, StoreError>) {
        InMemoryStore::add_log(self, message)
    }

    fn list_logs(&self) -> (r: Result<Vec<LogEntry>, StoreError>) {
        InMemoryStore::list_logs(self)
    }

    fn count(&self) -> (r: Result<usize, StoreError>) {
        InMemoryStore::count(self)
    }
}

} // verus!
