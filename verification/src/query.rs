//! The query engine: a pure pipeline over one listed snapshot. Applied
//! strictly in this order: the `after` timestamp filter, the substring
//! filter, a stable ascending sort by timestamp text, then pagination.
//! The engine never mutates a store and never fails — out-of-range
//! pagination yields an empty page, and an unparseable `after` bound
//! degrades to "filter not applied".

use crate::entry::{LogEntry, LogQuery};
use crate::utils::{entry_after, matches_after, parse_ts, parse_utc};
use vstd::prelude::*;
use vstd::seq_lib::*;
use vstd::string::StrSliceExecFns;

verus! {

/// Lexicographic order on character sequences: the order chronological
/// RFC 3339 timestamps with a fixed offset representation sort by.
pub open spec fn lex_le(a: Seq<char>, b: Seq<char>) -> bool
    decreases a.len(),
{
    if a.len() == 0 {
        true
    } else if b.len() == 0 {
        false
    } else if a[0] != b[0] {
        a[0] < b[0]
    } else {
        lex_le(a.drop_first(), b.drop_first())
    }
}

/// `e` sorts no later than `f`: its timestamp text is no greater.
pub open spec fn ts_le(e: LogEntry, f: LogEntry) -> bool {
    lex_le(e.timestamp@, f.timestamp@)
}

/// Ascending by timestamp text.
pub open spec fn sorted_by_ts(s: Seq<LogEntry>) -> bool {
    forall|i: int, j: int| 0 <= i <= j < s.len() ==> ts_le(s[i], s[j])
}

/// Where a stable insertion places `e` in `t`: after every element that
/// sorts no later than `e`, before every element that sorts strictly
/// later. `e` stands as far right as the order allows, so an element
/// already in `t` with `e`'s timestamp keeps its place before `e`.
pub open spec fn insert_by_ts(t: Seq<LogEntry>, e: LogEntry) -> Seq<LogEntry>
    decreases t.len(),
{
    if t.len() == 0 {
        seq![e]
    } else if ts_le(t.last(), e) {
        t.push(e)
    } else {
        insert_by_ts(t.drop_last(), e).push(t.last())
    }
}

/// Insertion sort by timestamp text: ascending, and stable — entries with
/// equal timestamps keep their relative input order.
pub open spec fn sort_by_ts(s: Seq<LogEntry>) -> Seq<LogEntry>
    decreases s.len(),
{
    if s.len() == 0 {
        s
    } else {
        insert_by_ts(sort_by_ts(s.drop_last()), s.last())
    }
}

/// `p` occurs in `m` as a literal contiguous run of characters,
/// case-sensitive; the empty pattern occurs in every text.
pub open spec fn contains_sub(m: Seq<char>, p: Seq<char>) -> bool {
    exists|i: int|
        0 <= i && i + p.len() <= m.len() && #[trigger] m.subrange(i, i + p.len() as int) == p
}

/// The `after` filter: applied only where the query carries a bound that
/// parses as a timestamp; otherwise the snapshot passes unchanged. An
/// entry whose own timestamp does not parse never matches the filter.
pub open spec fn apply_after(s: Seq<LogEntry>, q: LogQuery) -> Seq<LogEntry> {
    match q.after {
        Some(a) => match parse_ts(a@) {
            Some(t) => s.filter(|e: LogEntry| entry_after(e, t)),
            None => s,
        },
        None => s,
    }
}

/// The substring filter: applied only where the query carries a pattern.
pub open spec fn apply_contains(s: Seq<LogEntry>, q: LogQuery) -> Seq<LogEntry> {
    match q.contains {
        Some(p) => s.filter(|e: LogEntry| contains_sub(e.message@, p@)),
        None => s,
    }
}

/// The offset a query asks for; absent means 0.
pub open spec fn offset_of(q: LogQuery) -> int {
    match q.offset {
        Some(o) => o as int,
        None => 0,
    }
}

/// The limit a query asks for; absent means 50.
pub open spec fn limit_of(q: LogQuery) -> int {
    match q.limit {
        Some(l) => l as int,
        None => 50,
    }
}

/// The page: skip the first `offset` elements, then take at most `limit`.
/// Bounds beyond the sequence clamp to it — never an error.
pub open spec fn paginate(s: Seq<LogEntry>, offset: int, limit: int) -> Seq<LogEntry> {
    let lo = if offset < s.len() {
        offset
    } else {
        s.len() as int
    };
    let hi = if lo + limit < s.len() {
        lo + limit
    } else {
        s.len() as int
    };
    s.subrange(lo, hi)
}

/// What one retrieval returns for a snapshot `s` and query `q`: the
/// `after` filter, then the substring filter, then the stable sort by
/// timestamp, then pagination — in exactly that order.
pub open spec fn query_result(s: Seq<LogEntry>, q: LogQuery) -> Seq<LogEntry> {
    paginate(sort_by_ts(apply_contains(apply_after(s, q), q)), offset_of(q), limit_of(q))
}

/// Whether `a`'s text sorts no later than `b`'s, character by character.
fn str_le(a: &str, b: &str) -> (r: bool)
    ensures
        r == lex_le(a@, b@),
{
    let alen = a.unicode_len();
    let blen = b.unicode_len();
    proof {
        assert(a@.skip(0) =~= a@);
        assert(b@.skip(0) =~= b@);
    }
    let mut i: usize = 0;
    loop
        invariant
            i <= alen,
            i <= blen,
            alen == a@.len(),
            blen == b@.len(),
            lex_le(a@, b@) == lex_le(a@.skip(i as int), b@.skip(i as int)),
        decreases alen - i,
    {
        proof {
            let sa = a@.skip(i as int);
            let sb = b@.skip(i as int);
            if i < alen && i < blen {
                assert(sa[0] == a@[i as int]);
                assert(sb[0] == b@[i as int]);
                assert(sa.drop_first() =~= a@.skip(i + 1));
                assert(sb.drop_first() =~= b@.skip(i + 1));
            }
        }
        if i == alen {
            return true;
        }
        if i == blen {
            return false;
        }
        let ca = a.get_char(i);
        let cb = b.get_char(i);
        if ca != cb {
            return ca < cb;
        }
        i += 1;
    }
}

/// Whether `p`'s text stands in `m` starting at character position `at`.
fn occurs_at(m: &str, p: &str, at: usize) -> (r: bool)
    requires
        at + p@.len() <= m@.len(),
    ensures
        r == (m@.subrange(at as int, at as int + p@.len() as int) == p@),
{
    let mlen = m.unicode_len();
    let plen = p.unicode_len();
    let mut j: usize = 0;
    while j < plen
        invariant
            j <= plen,
            plen == p@.len(),
            mlen == m@.len(),
            at + plen <= mlen,
            forall|k: int| 0 <= k < j ==> m@[at + k] == p@[k],
        decreases plen - j,
    {
        if m.get_char(at + j) != p.get_char(j) {
            proof {
                let sub = m@.subrange(at as int, at as int + p@.len() as int);
                assert(sub[j as int] == m@[at + j]);
                assert(sub != p@);
            }
            return false;
        }
        j += 1;
    }
    proof {
        assert(m@.subrange(at as int, at as int + p@.len() as int) =~= p@);
    }
    true
}

/// Whether `p`'s text occurs anywhere in `m`, by trying every start.
fn str_contains(m: &str, p: &str) -> (r: bool)
    ensures
        r == contains_sub(m@, p@),
{
    let mlen = m.unicode_len();
    let plen = p.unicode_len();
    if plen > mlen {
        return false;
    }
    if plen == 0 {
        proof {
            assert(m@.subrange(0, 0 + p@.len() as int) =~= p@);
            assert(0 <= 0 && 0 + p@.len() <= m@.len());
        }
        return true;
    }
    let mut i: usize = 0;
    while i <= mlen - plen
        invariant
            1 <= plen <= mlen,
            mlen == m@.len(),
            plen == p@.len(),
            i <= mlen - plen + 1,
            forall|k: int| 0 <= k < i ==> #[trigger] m@.subrange(k, k + p@.len() as int) != p@,
        decreases mlen - plen + 1 - i,
    {
        if occurs_at(m, p, i) {
            proof {
                assert(0 <= i as int && i as int + p@.len() <= m@.len() && m@.subrange(
                    i as int,
                    i as int + p@.len() as int,
                ) == p@);
            }
            return true;
        }
        i += 1;
    }
    false
}

/// The entries of `logs` whose timestamp lies strictly after `t`, in
/// their input order.
fn filter_after(logs: Vec<LogEntry>, t: i64) -> (out: Vec<LogEntry>)
    ensures
        out@ == logs@.filter(|e: LogEntry| entry_after(e, t)),
{
    let mut out: Vec<LogEntry> = Vec::new();
    let mut i: usize = 0;
    while i < logs.len()
        invariant
            i <= logs.len(),
            out@ == logs@.subrange(0, i as int).filter(|e: LogEntry| entry_after(e, t)),
        decreases logs.len() - i,
    {
        let ghost pre = logs@.subrange(0, i as int);
        if matches_after(&logs[i], t) {
            out.push(logs[i].clone());
        }
        proof {
            broadcast use Seq::lemma_filter_push;

            assert(logs@.subrange(0, i + 1) =~= pre.push(logs@[i as int]));
        }
        i += 1;
    }
    proof {
        assert(logs@.subrange(0, logs@.len() as int) =~= logs@);
    }
    out
}

/// The entries of `logs` whose message contains `p` literally, in their
/// input order.
fn filter_contains(logs: Vec<LogEntry>, p: &str) -> (out: Vec<LogEntry>)
    ensures
        out@ == logs@.filter(|e: LogEntry| contains_sub(e.message@, p@)),
{
    let mut out: Vec<LogEntry> = Vec::new();
    let mut i: usize = 0;
    while i < logs.len()
        invariant
            i <= logs.len(),
            out@ == logs@.subrange(0, i as int).filter(
                |e: LogEntry| contains_sub(e.message@, p@),
            ),
        decreases logs.len() - i,
    {
        let ghost pre = logs@.subrange(0, i as int);
        if str_contains(logs[i].message.as_str(), p) {
            out.push(logs[i].clone());
        }
        proof {
            broadcast use Seq::lemma_filter_push;

            assert(logs@.subrange(0, i + 1) =~= pre.push(logs@[i as int]));
        }
        i += 1;
    }
    proof {
        assert(logs@.subrange(0, logs@.len() as int) =~= logs@);
    }
    out
}

/// Lexicographic order is reflexive.
proof fn lemma_lex_le_refl(a: Seq<char>)
    ensures
        lex_le(a, a),
    decreases a.len(),
{
    if a.len() > 0 {
        lemma_lex_le_refl(a.drop_first());
    }
}

/// Lexicographic order is total: of two texts, one sorts no later than
/// the other.
proof fn lemma_lex_le_total(a: Seq<char>, b: Seq<char>)
    ensures
        lex_le(a, b) || lex_le(b, a),
    decreases a.len(),
{
    if a.len() > 0 && b.len() > 0 && a[0] == b[0] {
        lemma_lex_le_total(a.drop_first(), b.drop_first());
    }
}

/// Lexicographic order is transitive.
proof fn lemma_lex_le_trans(a: Seq<char>, b: Seq<char>, c: Seq<char>)
    requires
        lex_le(a, b),
        lex_le(b, c),
    ensures
        lex_le(a, c),
    decreases a.len(),
{
    if a.len() > 0 && b.len() > 0 && c.len() > 0 && a[0] == b[0] && b[0] == c[0] {
        lemma_lex_le_trans(a.drop_first(), b.drop_first(), c.drop_first());
    }
}

/// Positional form of the stable insertion: inserting `e` at the first
/// index (from the right) whose predecessor sorts no later than `e` is
/// exactly `insert_by_ts`.
proof fn lemma_insert_by_ts_at(t: Seq<LogEntry>, e: LogEntry, j: int)
    requires
        0 <= j <= t.len(),
        forall|k: int| j <= k < t.len() ==> !ts_le(#[trigger] t[k], e),
        j > 0 ==> ts_le(t[j - 1], e),
    ensures
        insert_by_ts(t, e) == t.insert(j, e),
    decreases t.len(),
{
    if t.len() == 0 {
        assert(insert_by_ts(t, e) =~= t.insert(0, e));
    } else if j == t.len() {
        assert(ts_le(t.last(), e));
        assert(t.push(e) =~= t.insert(j, e));
    } else {
        assert(!ts_le(t.last(), e));
        lemma_insert_by_ts_at(t.drop_last(), e, j);
        assert(t.drop_last().insert(j, e).push(t.last()) =~= t.insert(j, e));
    }
}

/// The entries of `logs` in ascending timestamp order, entries with equal
/// timestamps keeping their relative input order.
fn sort_entries(logs: Vec<LogEntry>) -> (out: Vec<LogEntry>)
    ensures
        out@ == sort_by_ts(logs@),
{
    let mut out: Vec<LogEntry> = Vec::new();
    let mut i: usize = 0;
    while i < logs.len()
        invariant
            i <= logs.len(),
            out@ == sort_by_ts(logs@.subrange(0, i as int)),
        decreases logs.len() - i,
    {
        let e = logs[i].clone();
        let mut j: usize = out.len();
        while j > 0 && !str_le(out[j - 1].timestamp.as_str(), e.timestamp.as_str())
            invariant
                j <= out.len(),
                forall|k: int| j <= k < out@.len() ==> !ts_le(#[trigger] out@[k], e),
            decreases j,
        {
            j -= 1;
        }
        proof {
            lemma_insert_by_ts_at(out@, e, j as int);
        }
        let ghost sorted_pre = out@;
        let ghost prefix = logs@.subrange(0, i as int);
        out.insert(j, e);
        proof {
            let post = logs@.subrange(0, i + 1);
            assert(out@ == insert_by_ts(sorted_pre, e));
            assert(post.drop_last() =~= prefix);
            assert(post.last() == logs@[i as int]);
            assert(sort_by_ts(post) == insert_by_ts(sort_by_ts(prefix), post.last()));
        }
        i += 1;
    }
    proof {
        assert(logs@.subrange(0, logs@.len() as int) =~= logs@);
    }
    out
}

/// The page of `logs` a query's pagination asks for.
fn paginate_entries(logs: Vec<LogEntry>, offset: usize, limit: usize) -> (out: Vec<LogEntry>)
    ensures
        out@ == paginate(logs@, offset as int, limit as int),
{
    let lo = if offset < logs.len() {
        offset
    } else {
        logs.len()
    };
    let mut out: Vec<LogEntry> = Vec::new();
    let mut i: usize = lo;
    while i < logs.len() && out.len() < limit
        invariant
            lo <= i <= logs.len(),
            i - lo == out@.len(),
            out@.len() <= limit,
            out@ == logs@.subrange(lo as int, i as int),
        decreases logs.len() - i,
    {
        let ghost pre = logs@.subrange(lo as int, i as int);
        out.push(logs[i].clone());
        proof {
            assert(logs@.subrange(lo as int, i + 1) =~= pre.push(logs@[i as int]));
        }
        i += 1;
    }
    proof {
        assert(out@ =~= paginate(logs@, offset as int, limit as int));
    }
    out
}

/// One retrieval over a listed snapshot: the `after` filter, the substring
/// filter, the stable sort by timestamp, then pagination — in exactly that
/// order. Never fails: an unparseable `after` bound degrades to "filter
/// not applied", and pagination past the end yields an empty page.
pub fn run_query(logs: Vec<LogEntry>, q: &LogQuery) -> (out: Vec<LogEntry>)
    ensures
        out@ == query_result(logs@, *q),
{
    let after_filtered = match &q.after {
        Some(a) => match parse_utc(a.as_str()) {
            Some(t) => filter_after(logs, t),
            None => logs,
        },
        None => logs,
    };
    let contains_filtered = match &q.contains {
        Some(p) => filter_contains(after_filtered, p.as_str()),
        None => after_filtered,
    };
    let sorted = sort_entries(contains_filtered);
    let offset = match q.offset {
        Some(o) => o,
        None => 0,
    };
    let limit = match q.limit {
        Some(l) => l,
        None => 50,
    };
    paginate_entries(sorted, offset, limit)
}

/// The stable insertion inserts exactly one element: the result holds the
/// same entries as `t.push(e)`, with the same multiplicities.
proof fn lemma_insert_by_ts_multiset(t: Seq<LogEntry>, e: LogEntry)
    ensures
        insert_by_ts(t, e).to_multiset() == t.push(e).to_multiset(),
        insert_by_ts(t, e).len() == t.len() + 1,
    decreases t.len(),
{
    broadcast use group_to_multiset_ensures;

    if t.len() == 0 {
        assert(t.push(e) =~= seq![e]);
    } else if ts_le(t.last(), e) {
    } else {
        let dl = t.drop_last();
        let l = t.last();
        lemma_insert_by_ts_multiset(dl, e);
        assert(dl.push(l) =~= t);
        assert(insert_by_ts(t, e).to_multiset() =~= t.push(e).to_multiset());
    }
}

/// The stable insertion keeps every element at or below an upper bound.
proof fn lemma_insert_by_ts_upper(t: Seq<LogEntry>, e: LogEntry, b: LogEntry)
    requires
        forall|i: int| 0 <= i < t.len() ==> ts_le(#[trigger] t[i], b),
        ts_le(e, b),
    ensures
        forall|i: int|
            0 <= i < insert_by_ts(t, e).len() ==> ts_le(#[trigger] insert_by_ts(t, e)[i], b),
    decreases t.len(),
{
    let res = insert_by_ts(t, e);
    if t.len() == 0 {
        assert(res =~= seq![e]);
        assert(res[0] == e);
    } else if ts_le(t.last(), e) {
        assert(res == t.push(e));
        assert forall|i: int| 0 <= i < res.len() implies ts_le(res[i], b) by {
            if i < t.len() {
                assert(res[i] == t[i]);
            } else {
                assert(res[i] == e);
            }
        }
    } else {
        let w = insert_by_ts(t.drop_last(), e);
        lemma_insert_by_ts_upper(t.drop_last(), e, b);
        assert(res == w.push(t.last()));
        assert forall|i: int| 0 <= i < res.len() implies ts_le(res[i], b) by {
            if i < w.len() {
                assert(res[i] == w[i]);
            } else {
                assert(res[i] == t.last());
                assert(ts_le(t[t.len() - 1], b));
            }
        }
    }
}

/// Inserting into an ascending sequence keeps it ascending.
proof fn lemma_insert_by_ts_sorted(t: Seq<LogEntry>, e: LogEntry)
    requires
        sorted_by_ts(t),
    ensures
        sorted_by_ts(insert_by_ts(t, e)),
    decreases t.len(),
{
    lemma_lex_le_refl(e.timestamp@);
    if t.len() == 0 {
    } else if ts_le(t.last(), e) {
        let res = t.push(e);
        assert forall|i: int, j: int| 0 <= i <= j < res.len() implies ts_le(res[i], res[j]) by {
            if j == t.len() && i < t.len() {
                assert(res[i] == t[i]);
                assert(res[j] == e);
                assert(ts_le(t[i], t[t.len() - 1]));
                lemma_lex_le_trans(t[i].timestamp@, t.last().timestamp@, e.timestamp@);
            }
        }
    } else {
        let dl = t.drop_last();
        let l = t.last();
        let w = insert_by_ts(dl, e);
        lemma_insert_by_ts_sorted(dl, e);
        lemma_lex_le_total(l.timestamp@, e.timestamp@);
        lemma_insert_by_ts_upper(dl, e, l);
        lemma_lex_le_refl(l.timestamp@);
        let res = w.push(l);
        assert forall|i: int, j: int| 0 <= i <= j < res.len() implies ts_le(res[i], res[j]) by {
            if j < w.len() {
            } else if i < w.len() {
                assert(ts_le(w[i], l));
            }
        }
    }
}

/// The sort returns the snapshot's entries and nothing else: the same
/// entries with the same multiplicities, and in particular the same
/// number of them.
pub proof fn lemma_sort_permutes(s: Seq<LogEntry>)
    ensures
        sort_by_ts(s).to_multiset() == s.to_multiset(),
        sort_by_ts(s).len() == s.len(),
    decreases s.len(),
{
    broadcast use group_to_multiset_ensures;

    if s.len() > 0 {
        let dl = s.drop_last();
        let l = s.last();
        lemma_sort_permutes(dl);
        lemma_insert_by_ts_multiset(sort_by_ts(dl), l);
        assert(dl.push(l) =~= s);
        assert(sort_by_ts(s).to_multiset() =~= s.to_multiset());
    }
}

/// The sort's result is ascending by timestamp text.
pub proof fn lemma_sort_sorted(s: Seq<LogEntry>)
    ensures
        sorted_by_ts(sort_by_ts(s)),
    decreases s.len(),
{
    if s.len() > 0 {
        lemma_sort_sorted(s.drop_last());
        lemma_insert_by_ts_sorted(sort_by_ts(s.drop_last()), s.last());
    }
}

/// The entries whose timestamp text is exactly `k`, in their order.
pub open spec fn key_is(k: Seq<char>) -> spec_fn(LogEntry) -> bool {
    |e: LogEntry| e.timestamp@ == k
}

/// The stable insertion never carries `e` past an entry with `e`'s own
/// timestamp: for every key, the inserted sequence's entries with that
/// key are those of `t.push(e)`, in the same order.
proof fn lemma_insert_by_ts_filter(t: Seq<LogEntry>, e: LogEntry, k: Seq<char>)
    ensures
        insert_by_ts(t, e).filter(key_is(k)) == t.push(e).filter(key_is(k)),
    decreases t.len(),
{
    broadcast use Seq::lemma_filter_push;

    if t.len() == 0 {
        assert(t.push(e) =~= seq![e]);
    } else if ts_le(t.last(), e) {
    } else {
        let dl = t.drop_last();
        let l = t.last();
        let pk = key_is(k);
        if pk(l) && pk(e) {
            lemma_lex_le_refl(e.timestamp@);
            assert(ts_le(l, e));
        }
        lemma_insert_by_ts_filter(dl, e, k);
        assert(dl.push(l) =~= t);
        assert(insert_by_ts(t, e) == insert_by_ts(dl, e).push(l));
        assert(t.push(e) == dl.push(l).push(e));
    }
}

/// Sorting is stable: for every timestamp text `k`, the sorted snapshot's
/// entries carrying `k` stand exactly as the input held them — two
/// entries with identical timestamps preserve their relative input order.
pub proof fn lemma_sort_stable(s: Seq<LogEntry>, k: Seq<char>)
    ensures
        sort_by_ts(s).filter(key_is(k)) == s.filter(key_is(k)),
    decreases s.len(),
{
    broadcast use Seq::lemma_filter_push;

    if s.len() > 0 {
        let dl = s.drop_last();
        let l = s.last();
        lemma_sort_stable(dl, k);
        lemma_insert_by_ts_filter(sort_by_ts(dl), l, k);
        assert(dl.push(l) =~= s);
    }
}

/// Pagination boundary: an offset at or past the sequence's size yields
/// the empty page — never an error.
pub proof fn lemma_paginate_offset_beyond(s: Seq<LogEntry>, offset: int, limit: int)
    requires
        offset >= s.len(),
        limit >= 0,
    ensures
        paginate(s, offset, limit) == Seq::<LogEntry>::empty(),
{
    assert(paginate(s, offset, limit) =~= Seq::<LogEntry>::empty());
}

/// Pagination boundary for a whole retrieval: where the query's offset is
/// at or past the filtered result's size, the retrieval returns the empty
/// sequence — never an error.
pub proof fn lemma_query_offset_beyond(s: Seq<LogEntry>, q: LogQuery)
    ensures
        offset_of(q) >= apply_contains(apply_after(s, q), q).len() ==> query_result(s, q)
            == Seq::<LogEntry>::empty(),
{
    let filtered = apply_contains(apply_after(s, q), q);
    if offset_of(q) >= filtered.len() {
        lemma_sort_permutes(filtered);
        lemma_paginate_offset_beyond(sort_by_ts(filtered), offset_of(q), limit_of(q));
    }
}

/// Every retrieval's result is ascending by timestamp text.
pub proof fn lemma_query_sorted(s: Seq<LogEntry>, q: LogQuery)
    ensures
        sorted_by_ts(query_result(s, q)),
{
    let filtered = apply_contains(apply_after(s, q), q);
    let sorted = sort_by_ts(filtered);
    lemma_sort_sorted(filtered);
    let res = query_result(s, q);
    assert forall|i: int, j: int| 0 <= i <= j < res.len() implies ts_le(res[i], res[j]) by {
        let lo = if offset_of(q) < sorted.len() {
            offset_of(q)
        } else {
            sorted.len() as int
        };
        assert(res[i] == sorted[lo + i]);
        assert(res[j] == sorted[lo + j]);
    }
}

} // verus!
