use chad_log::{matches_after, parse_utc, run_query, InMemoryStore, LogEntry, LogQuery, StoreError};

fn entry(id: &str, ts: &str, msg: &str) -> LogEntry {
    LogEntry { id: id.to_string(), timestamp: ts.to_string(), message: msg.to_string() }
}

fn query(
    after: Option<&str>,
    contains: Option<&str>,
    limit: Option<usize>,
    offset: Option<usize>,
) -> LogQuery {
    LogQuery {
        after: after.map(|s| s.to_string()),
        contains: contains.map(|s| s.to_string()),
        limit,
        offset,
    }
}

fn ids(v: &[LogEntry]) -> Vec<String> {
    v.iter().map(|e| e.id.clone()).collect()
}

#[test]
fn append_then_list_contains_message() {
    let mut store = InMemoryStore::new();
    let added = store.add_log("hello".to_string()).unwrap();
    assert_eq!(added.message, "hello");
    assert_eq!(added.id.len(), 26);
    let listed = store.list_logs().unwrap();
    assert_eq!(listed.len(), 1);
    assert_eq!(listed[0].message, "hello");
    assert_eq!(listed[0].id, added.id);
    assert_eq!(listed[0].timestamp, added.timestamp);
}

#[test]
fn count_matches_number_of_appends() {
    let mut store = InMemoryStore::new();
    assert_eq!(store.count().unwrap(), 0);
    for i in 0..5 {
        store.add_log(format!("message {i}")).unwrap();
    }
    assert_eq!(store.count().unwrap(), 5);
}

#[test]
fn list_twice_without_append_is_identical() {
    let mut store = InMemoryStore::new();
    store.add_log("one".to_string()).unwrap();
    store.add_log("two".to_string()).unwrap();
    store.add_log("three".to_string()).unwrap();
    let first = store.list_logs().unwrap();
    let second = store.list_logs().unwrap();
    assert_eq!(ids(&first), ids(&second));
    let msgs1: Vec<&str> = first.iter().map(|e| e.message.as_str()).collect();
    let msgs2: Vec<&str> = second.iter().map(|e| e.message.as_str()).collect();
    assert_eq!(msgs1, msgs2);
}

#[test]
fn listing_is_a_snapshot() {
    let mut store = InMemoryStore::new();
    store.add_log("before".to_string()).unwrap();
    let snapshot = store.list_logs().unwrap();
    store.add_log("after".to_string()).unwrap();
    assert_eq!(snapshot.len(), 1);
    assert_eq!(store.list_logs().unwrap().len(), 2);
}

#[test]
fn sort_is_stable_for_equal_timestamps() {
    let t = "2024-05-01T12:00:00+00:00";
    let logs = vec![
        entry("c", t, "third in"),
        entry("z", "2024-05-01T11:00:00+00:00", "earlier"),
        entry("a", t, "first of the pair"),
        entry("b", t, "second of the pair"),
    ];
    let out = run_query(logs, &query(None, None, None, None));
    // the earlier entry first; the three equal-timestamp entries in input order
    assert_eq!(ids(&out), vec!["z", "c", "a", "b"]);
}

#[test]
fn offset_at_or_beyond_size_yields_empty() {
    let logs = vec![
        entry("a", "2024-01-01T00:00:00+00:00", "x"),
        entry("b", "2024-01-02T00:00:00+00:00", "y"),
        entry("c", "2024-01-03T00:00:00+00:00", "z"),
    ];
    let out = run_query(logs.clone(), &query(None, None, None, Some(3)));
    assert!(out.is_empty());
    let out = run_query(logs, &query(None, None, None, Some(10)));
    assert!(out.is_empty());
}

#[test]
fn after_filter_returns_strictly_later_entries() {
    let t1 = "2024-01-01T00:00:00+00:00";
    let t2 = "2024-01-02T00:00:00+00:00";
    let logs = vec![entry("a", t1, "a"), entry("b", t2, "b")];
    let out = run_query(logs, &query(Some(t1), None, None, None));
    assert_eq!(ids(&out), vec!["b"]);
}

#[test]
fn contains_filter_keeps_matching_entries_only() {
    let logs = vec![
        entry("a", "2024-01-01T00:00:00+00:00", "hello world"),
        entry("b", "2024-01-02T00:00:00+00:00", "unrelated"),
        entry("c", "2024-01-03T00:00:00+00:00", "Hello WORLD"),
    ];
    let out = run_query(logs, &query(None, Some("wor"), None, None));
    // case-sensitive: only the lower-case message matches
    assert_eq!(ids(&out), vec!["a"]);
}

#[test]
fn limit_and_offset_page_by_timestamp_order() {
    let logs = vec![
        entry("e3", "2024-01-03T00:00:00+00:00", "m3"),
        entry("e1", "2024-01-01T00:00:00+00:00", "m1"),
        entry("e5", "2024-01-05T00:00:00+00:00", "m5"),
        entry("e2", "2024-01-02T00:00:00+00:00", "m2"),
        entry("e4", "2024-01-04T00:00:00+00:00", "m4"),
    ];
    let out = run_query(logs, &query(None, None, Some(2), Some(3)));
    // the 4th and 5th by timestamp order
    assert_eq!(ids(&out), vec!["e4", "e5"]);
}

#[test]
fn unparseable_after_returns_full_sorted_set() {
    let logs = vec![
        entry("b", "2024-01-02T00:00:00+00:00", "y"),
        entry("a", "2024-01-01T00:00:00+00:00", "x"),
    ];
    let out = run_query(logs, &query(Some("not-a-timestamp"), None, None, None));
    assert_eq!(ids(&out), vec!["a", "b"]);
}

#[test]
fn entry_with_unparseable_timestamp_never_matches_after() {
    let logs = vec![
        entry("bad", "not a timestamp", "kept without filter"),
        entry("good", "2024-01-02T00:00:00+00:00", "later"),
    ];
    // no after filter: the unparseable entry is not excluded
    let all = run_query(logs.clone(), &query(None, None, None, None));
    assert_eq!(all.len(), 2);
    // with an after filter, the unparseable entry never matches
    let out = run_query(logs, &query(Some("2024-01-01T00:00:00+00:00"), None, None, None));
    assert_eq!(ids(&out), vec!["good"]);
}

#[test]
fn two_appends_both_succeed_with_distinct_ids() {
    let mut store = InMemoryStore::new();
    let first = store.add_log("left".to_string()).unwrap();
    let second = store.add_log("right".to_string()).unwrap();
    assert_ne!(first.id, second.id);
    let listed = store.list_logs().unwrap();
    assert!(listed.iter().any(|e| e.id == first.id));
    assert!(listed.iter().any(|e| e.id == second.id));
}

#[test]
fn parse_utc_exact_values() {
    // 2020-01-01T00:00:00Z is 1_577_836_800 s after the epoch
    assert_eq!(parse_utc("2020-01-01T00:00:00Z"), Some(1_577_836_800_000_000_000));
    // an offset denotes the same instant
    assert_eq!(parse_utc("2020-01-01T01:00:00+01:00"), Some(1_577_836_800_000_000_000));
    // sub-second precision is kept
    assert_eq!(parse_utc("2020-01-01T00:00:00.5Z"), Some(1_577_836_800_500_000_000));
    assert_eq!(parse_utc("garbage"), None);
    assert_eq!(parse_utc(""), None);
}

#[test]
fn matches_after_compares_instants_strictly() {
    let after = parse_utc("2024-01-01T00:00:00+00:00").unwrap();
    let later = entry("a", "2024-01-01T00:00:01+00:00", "m");
    let equal = entry("b", "2024-01-01T00:00:00+00:00", "m");
    let unparseable = entry("c", "yesterday", "m");
    assert!(matches_after(&later, after));
    assert!(!matches_after(&equal, after));
    assert!(!matches_after(&unparseable, after));
    // the same instant written with another offset does not match either
    let same_instant = entry("d", "2024-01-01T01:00:00+01:00", "m");
    assert!(!matches_after(&same_instant, after));
}

#[test]
fn appended_timestamps_parse_and_are_ordered() {
    let mut store = InMemoryStore::new();
    let first = store.add_log("one".to_string()).unwrap();
    let second = store.add_log("two".to_string()).unwrap();
    let t1 = parse_utc(&first.timestamp).expect("a fresh timestamp parses");
    let t2 = parse_utc(&second.timestamp).expect("a fresh timestamp parses");
    assert!(t1 <= t2);
}

#[test]
fn sort_orders_shuffled_timestamps_ascending() {
    let logs = vec![
        entry("m", "2024-03-05T09:00:00+00:00", "mid"),
        entry("l", "2024-03-09T09:00:00+00:00", "late"),
        entry("e", "2024-03-01T09:00:00+00:00", "early"),
    ];
    let out = run_query(logs, &query(None, None, None, None));
    assert_eq!(ids(&out), vec!["e", "m", "l"]);
    assert!(out[0].timestamp <= out[1].timestamp && out[1].timestamp <= out[2].timestamp);
}

#[test]
fn default_limit_is_fifty() {
    let mut logs = Vec::new();
    for i in 0..60 {
        logs.push(entry(
            &format!("id{i:02}"),
            &format!("2024-01-01T00:00:{:02}.{:03}Z", i / 10, i % 10),
            "m",
        ));
    }
    let out = run_query(logs, &query(None, None, None, None));
    assert_eq!(out.len(), 50);
    assert_eq!(out[0].id, "id00");
    assert_eq!(out[49].id, "id49");
}

#[test]
fn empty_contains_pattern_matches_every_entry() {
    let logs = vec![
        entry("a", "2024-01-01T00:00:00+00:00", "anything"),
        entry("b", "2024-01-02T00:00:00+00:00", ""),
    ];
    let out = run_query(logs, &query(None, Some(""), None, None));
    assert_eq!(out.len(), 2);
}

#[test]
fn combined_query_filters_sorts_and_pages() {
    let logs = vec![
        entry("e4", "2024-01-04T00:00:00+00:00", "job ok"),
        entry("e1", "2024-01-01T00:00:00+00:00", "job ok"),
        entry("e5", "2024-01-05T00:00:00+00:00", "job failed"),
        entry("e2", "2024-01-02T00:00:00+00:00", "job ok"),
        entry("e3", "2024-01-03T00:00:00+00:00", "other"),
    ];
    // strictly after e1, message containing "job", skip one, take one:
    // the filtered, sorted survivors are [e2, e4, e5]; the page is [e4]
    let q = query(Some("2024-01-01T00:00:00+00:00"), Some("job"), Some(1), Some(1));
    let out = run_query(logs, &q);
    assert_eq!(ids(&out), vec!["e4"]);
}

fn add_via_contract<S: chad_log::LogStore>(store: &mut S, message: &str) -> LogEntry {
    store.add_log(message.to_string()).unwrap()
}

#[test]
fn store_contract_serves_the_in_memory_variant() {
    let mut store = InMemoryStore::new();
    let entry = add_via_contract(&mut store, "through the capability interface");
    assert_eq!(entry.message, "through the capability interface");
    let listed = chad_log::LogStore::list_logs(&store).unwrap();
    assert_eq!(listed.len(), 1);
    assert_eq!(chad_log::LogStore::count(&store).unwrap(), 1);
}

#[test]
fn store_error_describes_its_cause() {
    let err = StoreError { cause: "backend unreachable".to_string() };
    assert_eq!(err.describe(), "backend unreachable");
}

#[test]
fn create_and_list_logs() {
    let mut store = InMemoryStore::new();
    let first = store.add_log("First log entry".to_string()).unwrap();
    assert_eq!(first.message, "First log entry");
    let second = store.add_log("Second log entry".to_string()).unwrap();
    assert_eq!(second.message, "Second log entry");
    let listed = store.list_logs().unwrap();
    assert_eq!(listed.len(), 2);
    assert_eq!(listed[0].message, "First log entry");
    assert_eq!(listed[1].message, "Second log entry");
    assert_ne!(listed[0].id, listed[1].id);
}
