//! The in-process store: an append-only sequence of entries owned by one
//! store value. Reads return snapshot copies; a listing never changes when
//! the store is appended to later. Sharing the store between concurrent
//! tasks (a lock around the whole value) is the embedding program's
//! business — each method here is one atomic step on the owned sequence.

use crate::entry::LogEntry;
use vstd::prelude::*;

verus! {

/// A store operation's failure: the backend was unreachable, or the
/// persistence layer refused the statement. The cause is carried as text.
/// The in-process store never fails; the durable backend's driver reports
/// its cause through this type.
#[derive(Debug)]
pub struct StoreError {
    /// What went wrong, as the backend reported it.
    pub cause: String,
}

impl StoreError {
    /// The failure's cause as text.
    pub fn describe(&self) -> (r: String)
        ensures
            r == self.cause,
    {
        self.cause.clone()
    }
}

/// The in-memory variant of the store: no persistence across restarts, by
/// design. Its mathematical value is the sequence of entries it holds, in
/// insertion order.
pub struct InMemoryStore {
    logs: Vec<LogEntry>,
}

impl View for InMemoryStore {
    type V = Seq<LogEntry>;

    closed spec fn view(&self) -> Seq<LogEntry> {
        self.logs@
    }
}

impl InMemoryStore {
    /// A store holding no entries.
    pub fn new() -> (s: Self)
        ensures
            s@ == Seq::<LogEntry>::empty(),
    {
        InMemoryStore { logs: Vec::new() }
    }

    /// Appends one fresh entry made from `message` and returns it. The
    /// in-process store cannot fail: the result is always `Ok`, the new
    /// entry stands at the end, and every earlier entry is untouched.
    pub fn add_log(&mut self, message: String) -> (r: Result<LogEntry, StoreError>)
        ensures
            r matches Ok(e) && final(self)@ == old(self)@.push(e) && e.message == message,
    {
        let entry = LogEntry::new(message);
        let stored = entry.clone();
        self.logs.push(stored);
        Ok(entry)
    }

    /// Every entry currently held, in insertion order, as a snapshot copy:
    /// later appends never change an already-returned listing.
    pub fn list_logs(&self) -> (r: Result<Vec<LogEntry>, StoreError>)
        ensures
            r matches Ok(v) && v@ == self@,
    {
        let mut out: Vec<LogEntry> = Vec::new();
        let mut i: usize = 0;
        while i < self.logs.len()
            invariant
                i <= self.logs.len(),
                out@ == self.logs@.subrange(0, i as int),
            decreases self.logs.len() - i,
        {
            out.push(self.logs[i].clone());
            proof {
                assert(self.logs@.subrange(0, i + 1) =~= self.logs@.subrange(0, i as int).push(
                    self.logs@[i as int],
                ));
            }
            i += 1;
        }
        proof {
            assert(self.logs@.subrange(0, self.logs@.len() as int) =~= self.logs@);
        }
        Ok(out)
    }

    /// The number of entries currently held.
    pub fn count(&self) -> (r: Result<usize, StoreError>)
        ensures
            r matches Ok(n) && n == self@.len(),
    {
        Ok(self.logs.len())
    }
}

/// An append is visible to a later listing: `add_log` leaves the view at
/// `pre.push(e)` with `e.message` the caller's message, `list_logs`
/// returns the view, and that view holds `e` — one more entry than
/// before, at the end, with every earlier entry unchanged.
pub proof fn lemma_append_visible(pre: Seq<LogEntry>, e: LogEntry)
    ensures
        pre.push(e).contains(e),
        pre.push(e).len() == pre.len() + 1,
        pre.push(e)[pre.len() as int] == e,
        forall|i: int| 0 <= i < pre.len() ==> pre.push(e)[i] == pre[i],
{
    assert(pre.push(e)[pre.len() as int] == e);
}

/// `count` returns the view's length and each successful append pushes
/// exactly one entry, so after appending `news` one at a time (with no
/// other writer) the count is the starting count plus `news.len()` — from
/// an empty store, exactly the number of appends.
pub proof fn lemma_count_after_appends(pre: Seq<LogEntry>, news: Seq<LogEntry>)
    ensures
        (pre + news).len() == pre.len() + news.len(),
{
}

/// Listing is read-only and snapshot-isolated: two listings with no
/// intervening append both return the store's unchanged view, so they
/// return the same sequence of entries.
pub proof fn lemma_list_idempotent(view: Seq<LogEntry>, first: Seq<LogEntry>, second: Seq<LogEntry>)
    requires
        first == view,
        second == view,
    ensures
        first == second,
{
}

} // verus!
