use chronicle::bindings::{
    cache_size, event_type, js_branch, js_change, js_entry, js_list_entry, js_record, js_stats, js_summary, list_states,
    page, parse_id, parse_links, parse_u64, query, registration, subscription_config, tree_entry, tree_ops,
    JsQueryFilter, JsStateRegistration, JsSubscriptionConfig, JsSubscriptionFilter, JsTreeEntry, JsTreeOp,
};
use chronicle::types::{BranchId, PayloadEncoding, RecordId, StateUpdateRecord, Timestamp};
use chronicle::{
    Branch, CompactionSummary, Record, RecordInput, Sequence, StateOperation, StateRegistration, StateStrategy, Store,
    StoreEvent, StoreFiles, StoreStats, TreeChange, TreeEntry, TreeOp,
};

fn record(seq: u64) -> Record {
    Record {
        id: RecordId(seq + 100),
        sequence: Sequence(seq),
        branch: BranchId(1),
        timestamp: Timestamp(5),
        record_type: "note".to_string(),
        payload: vec![1],
        encoding: PayloadEncoding::Json,
        caused_by: vec![RecordId(7), RecordId(u64::MAX)],
        linked_to: vec![],
    }
}

#[test]
fn records_carry_ids_as_text() {
    let js = js_record(record(3));
    assert_eq!(js.id, "103");
    assert_eq!(js.sequence, 3);
    assert_eq!(js.timestamp, 5);
    assert_eq!(js.caused_by, vec!["7".to_string(), "18446744073709551615".to_string()]);
    assert!(js.linked_to.is_empty());
}

#[test]
fn numbers_are_read_as_a_whole() {
    assert_eq!(parse_u64("0"), Some(0));
    assert_eq!(parse_u64("+42"), Some(42));
    assert_eq!(parse_u64("007"), Some(7));
    assert_eq!(parse_u64("18446744073709551615"), Some(u64::MAX));
    for bad in ["", "+", "-1", "18446744073709551616", "1 ", "1a", "++1", "99999999999999999999999"] {
        assert_eq!(parse_u64(bad), None, "{:?} is no number", bad);
        assert_eq!(bad.parse::<u64>().ok(), None);
    }
    assert_eq!(parse_id("x", "Invalid record ID"), Err("Invalid record ID".to_string()));
    assert_eq!(parse_id("12", "Invalid record ID"), Ok(12));
}

#[test]
fn links_that_are_no_numbers_are_left_out() {
    let list = Some(vec!["1".to_string(), "x".to_string(), "3".to_string()]);
    assert_eq!(parse_links(&list), vec![RecordId(1), RecordId(3)]);
    assert_eq!(parse_links(&None), vec![]);
}

fn registered(strategy: &str, delta: Option<i64>) -> Result<StateRegistration, String> {
    registration(JsStateRegistration {
        id: "s".to_string(),
        strategy: strategy.to_string(),
        delta_snapshot_every: delta,
        full_snapshot_every: None,
        initial_value: Some(vec![9]),
    })
}

#[test]
fn strategies_have_defaults() {
    assert!(matches!(registered("snapshot", None).unwrap().strategy, StateStrategy::Snapshot));
    assert!(matches!(
        registered("append_log", None).unwrap().strategy,
        StateStrategy::AppendLog { delta_snapshot_every: 100, full_snapshot_every: 10 }
    ));
    assert!(matches!(
        registered("tree", None).unwrap().strategy,
        StateStrategy::Tree { delta_snapshot_every: 50, full_snapshot_every: 10 }
    ));
    assert!(matches!(
        registered("tree", Some(3)).unwrap().strategy,
        StateStrategy::Tree { delta_snapshot_every: 3, full_snapshot_every: 10 }
    ));
    assert_eq!(registered("tree", None).unwrap().initial_value, Some(vec![9]));
    assert_eq!(registered("delta", None).unwrap_err(), "Invalid strategy");
}

fn op(name: &str, path: &str, entry: Option<JsTreeEntry>) -> JsTreeOp {
    JsTreeOp { op: name.to_string(), path: path.to_string(), entry }
}

fn file() -> JsTreeEntry {
    JsTreeEntry { blob_hash: "h".to_string(), size: 4, mode: 0o644 }
}

#[test]
fn tree_operations_are_read_in_order() {
    let ops = tree_ops(vec![op("set", "a", Some(file())), op("remove", "b", None)]).unwrap();
    assert_eq!(ops.len(), 2);
    assert!(matches!(&ops[0], TreeOp::SetEntry { path, entry } if path == "a" && entry.size == 4));
    assert!(matches!(&ops[1], TreeOp::Remove { path } if path == "b"));
    assert!(tree_ops(vec![]).unwrap().is_empty());
}

#[test]
fn first_bad_tree_operation_is_named() {
    let ops = vec![op("set", "a", Some(file())), op("set", "b", None), op("move", "c", None)];
    assert_eq!(tree_ops(ops).unwrap_err(), "TreeOp 'set' requires entry");
    let ops = vec![op("move", "c", None), op("set", "b", None)];
    assert_eq!(tree_ops(ops).unwrap_err(), "Invalid tree op: 'move', expected 'set' or 'remove'");
}

#[test]
fn entries_round_trip() {
    let entry = tree_entry(js_entry(TreeEntry { blob_hash: "h".to_string(), size: 7, mode: 0o755 }));
    assert_eq!(entry, TreeEntry { blob_hash: "h".to_string(), size: 7, mode: 0o755 });
    let listed = js_list_entry("p".to_string(), entry);
    assert_eq!((listed.path.as_str(), listed.size, listed.mode), ("p", 7, 0o755));
}

#[test]
fn changes_show_what_was_and_what_is() {
    let entry = |n| TreeEntry { blob_hash: "h".to_string(), size: n, mode: 0 };
    let added = js_change(TreeChange::Added { path: "p".to_string(), entry: entry(1) });
    assert_eq!(added.change_type, "added");
    assert!(added.old_entry.is_none());
    let modified =
        js_change(TreeChange::Modified { path: "p".to_string(), old_entry: entry(1), new_entry: entry(2) });
    assert_eq!(modified.change_type, "modified");
    assert_eq!((modified.old_entry.unwrap().size, modified.new_entry.unwrap().size), (1, 2));
    let removed = js_change(TreeChange::Removed { path: "p".to_string(), entry: entry(3) });
    assert_eq!(removed.change_type, "removed");
    assert_eq!(removed.old_entry.unwrap().size, 3);
    assert!(removed.new_entry.is_none());
}

#[test]
fn subscriptions_have_defaults() {
    let config = subscription_config(None);
    assert_eq!((config.buffer_size, config.max_snapshot_bytes), (1000, 10 * 1024 * 1024));
    assert!(!config.filter.include_records);
    let config = subscription_config(Some(JsSubscriptionConfig {
        buffer_size: Some(5),
        max_snapshot_bytes: None,
        from_sequence: Some(3),
        filter: Some(JsSubscriptionFilter {
            record_types: Some(vec!["a".to_string()]),
            branch: None,
            state_ids: None,
            include_records: Some(true),
            include_state_changes: None,
            include_branch_events: Some(false),
        }),
    }));
    assert_eq!(config.buffer_size, 5);
    assert_eq!(config.from_sequence, Some(Sequence(3)));
    assert!(config.filter.include_records && !config.filter.include_state_changes);
    assert_eq!(config.filter.record_types, Some(vec!["a".to_string()]));
}

#[test]
fn summaries_keep_their_numbers() {
    let stats = StoreStats { record_count: 1, blob_count: 2, branch_count: 3, ..StoreStats::default() };
    let js = js_stats(stats);
    assert_eq!((js.record_count, js.blob_count, js.branch_count), (1, 2, 3));
    let js = js_summary(CompactionSummary {
        total_operations: 5,
        compactable_operations: 4,
        total_bytes: 3,
        compactable_bytes: 2,
        states_needing_compaction: 1,
    });
    assert_eq!((js.total_operations, js.states_needing_compaction), (5, 1));
    let js = js_branch(Branch {
        id: BranchId(2),
        name: "b".to_string(),
        head: Sequence(4),
        parent: Some(BranchId(1)),
        branch_point: Some(Sequence(3)),
        created: Timestamp(9),
    });
    assert_eq!((js.id.as_str(), js.head, js.branch_point), ("2", 4, Some(3)));
    assert_eq!(js.parent_id, Some("1".to_string()));
    assert_eq!(cache_size(None), 1000);
    assert_eq!(cache_size(Some(3)), 3);
    assert_eq!(event_type(&StoreEvent::CaughtUp), "caught_up");
}

#[test]
fn pages_skip_and_stop() {
    let all = || (1..=5).map(record).collect::<Vec<_>>();
    let sequences = |offset, limit| page(all(), offset, limit).iter().map(|r| r.sequence).collect::<Vec<_>>();
    assert_eq!(sequences(0, 10), vec![1, 2, 3, 4, 5]);
    assert_eq!(sequences(1, 2), vec![2, 3]);
    assert_eq!(sequences(4, 2), vec![5]);
    assert_eq!(sequences(9, 2), Vec::<i64>::new());
    assert_eq!(sequences(0, 0), Vec::<i64>::new());
}

fn filter() -> JsQueryFilter {
    JsQueryFilter { types: None, from_sequence: None, to_sequence: None, limit: None, offset: None, reverse: None }
}

#[test]
fn queries_filter_and_page() {
    let mut store = Store::create(StoreFiles::none(), 10).unwrap();
    for i in 0..10 {
        store.append(RecordInput::raw(if i % 2 == 0 { "even" } else { "odd" }, vec![i])).unwrap();
    }
    let sequences = |f: JsQueryFilter| query(&store, &f).unwrap().iter().map(|r| r.sequence).collect::<Vec<_>>();
    assert_eq!(sequences(filter()), (1..=10).collect::<Vec<i64>>());
    assert_eq!(sequences(JsQueryFilter { reverse: Some(true), limit: Some(2), ..filter() }), vec![10, 9]);
    assert_eq!(
        sequences(JsQueryFilter { types: Some(vec!["odd".to_string()]), offset: Some(1), limit: Some(2), ..filter() }),
        vec![4, 6]
    );
    assert_eq!(
        sequences(JsQueryFilter { from_sequence: Some(3), to_sequence: Some(5), ..filter() }),
        vec![3, 4, 5]
    );
}

#[test]
fn states_are_listed_with_their_counts() {
    let mut store = Store::create(StoreFiles::none(), 10).unwrap();
    store.register_state(registered("append_log", None).unwrap()).unwrap();
    let info = list_states(&store).unwrap();
    assert_eq!((info[0].id.as_str(), info[0].strategy.as_str()), ("s", "append_log"));
    let encode = |u: &StateUpdateRecord| Ok(format!("{:?}", u).into_bytes());
    store.update_state("s", StateOperation::Append(b"1".to_vec()), &encode).unwrap();
    store.update_state("s", StateOperation::Append(b"2".to_vec()), &encode).unwrap();
    let info = list_states(&store).unwrap();
    assert_eq!(info[0].item_count, Some(2));
    assert_eq!(info[0].ops_since_snapshot, 2);
}
