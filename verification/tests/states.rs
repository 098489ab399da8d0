use chronicle::state::chain::UpdateTable;
use chronicle::types::{BranchId, RecordId, RecordInput, Sequence, StateUpdateRecord, Timestamp};
use chronicle::{
    apply_operation, RecordLog, SnapshotNeeded, StateIndex, StateManager, StateOperation, StateRegistration,
    StateStrategy, StoreError, TreeEntry, TreeOp,
};

const TEST_BRANCH: BranchId = BranchId(1);

struct Setup {
    log: RecordLog,
    updates: UpdateTable,
    manager: StateManager,
}

impl Setup {
    fn new() -> Self {
        Setup {
            log: RecordLog::open(vec![], None).unwrap(),
            updates: UpdateTable::new(),
            manager: StateManager::new(),
        }
    }

    fn append(&mut self, state_id: &str, prev_offset: Option<u64>, operation: StateOperation, seq: u64) -> u64 {
        let update = StateUpdateRecord {
            record_id: RecordId(0),
            global_sequence: Sequence(seq),
            state_id: state_id.to_string(),
            prev_update_offset: prev_offset,
            operation,
            timestamp: Timestamp::now(),
        };
        let payload = format!("{:?}", update).into_bytes();
        let input = RecordInput::raw("state_update", payload);
        let (_, offset) = self.log.append(input, BranchId(1), Sequence(seq));
        self.updates.add(offset, update).unwrap();
        offset
    }

    fn get_state(&mut self, state_id: &str) -> Result<Option<Vec<u8>>, StoreError> {
        self.manager.get_state(&self.log, &self.updates, TEST_BRANCH, state_id)
    }
}

fn saved(manager: &StateManager) -> StateIndex {
    let index = manager.state_index();
    StateIndex { heads: index.heads.to_vec(), strategies: index.strategies.to_vec() }
}

#[test]
fn test_register_and_update() {
    let mut t = Setup::new();

    t.manager.register_state(StateRegistration {
            id: "counter".to_string(),
            strategy: StateStrategy::Snapshot,
            initial_value: None,
        })
        .unwrap();

    // Append state update to log
    let offset = t.append("counter",
        None,
        StateOperation::SetValue(b"42".to_vec()),
        1,
    );

    // Record in manager
    t.manager.record_update(TEST_BRANCH, "counter", offset, &StateOperation::SetValue(b"42".to_vec()));

    // Get state
    let state = t.get_state("counter").unwrap().unwrap();
    assert_eq!(state, b"42");
}

#[test]
fn test_chain_reconstruction() {
    let mut t = Setup::new();

    t.manager.register_state(StateRegistration {
            id: "items".to_string(),
            strategy: StateStrategy::AppendLog {
                delta_snapshot_every: 10,
                full_snapshot_every: 5,
            },
            initial_value: None,
        })
        .unwrap();

    // Build chain
    let offset1 = t.append("items",
        None,
        StateOperation::Append(b"1".to_vec()),
        1,
    );
    t.manager.record_update(TEST_BRANCH, "items", offset1, &StateOperation::Append(b"1".to_vec()));

    let offset2 = t.append("items",
        Some(offset1),
        StateOperation::Append(b"2".to_vec()),
        2,
    );
    t.manager.record_update(TEST_BRANCH, "items", offset2, &StateOperation::Append(b"2".to_vec()));

    let offset3 = t.append("items",
        Some(offset2),
        StateOperation::Append(b"3".to_vec()),
        3,
    );
    t.manager.record_update(TEST_BRANCH, "items", offset3, &StateOperation::Append(b"3".to_vec()));

    // Reconstruct state
    let state = t.get_state("items").unwrap().unwrap();
    let arr: Vec<i32> = serde_json::from_slice(&state).unwrap();
    assert_eq!(arr, vec![1, 2, 3]);
}

#[test]
fn test_snapshot_breaks_chain() {
    let mut t = Setup::new();

    t.manager.register_state(StateRegistration {
            id: "items".to_string(),
            strategy: StateStrategy::AppendLog {
                delta_snapshot_every: 10,
                full_snapshot_every: 5,
            },
            initial_value: None,
        })
        .unwrap();

    // Build chain
    let offset1 = t.append("items",
        None,
        StateOperation::Append(b"1".to_vec()),
        1,
    );
    t.manager.record_update(TEST_BRANCH, "items", offset1, &StateOperation::Append(b"1".to_vec()));

    let offset2 = t.append("items",
        Some(offset1),
        StateOperation::Append(b"2".to_vec()),
        2,
    );
    t.manager.record_update(TEST_BRANCH, "items", offset2, &StateOperation::Append(b"2".to_vec()));

    // Snapshot
    let snapshot_data = serde_json::to_vec(&[1, 2]).unwrap();
    let snapshot_op = StateOperation::Snapshot(snapshot_data.clone());
    let offset3 = t.append("items", Some(offset2), snapshot_op.clone(), 3);
    t.manager.record_update(TEST_BRANCH, "items", offset3, &snapshot_op);

    // More appends after snapshot
    let offset4 = t.append("items",
        Some(offset3),
        StateOperation::Append(b"3".to_vec()),
        4,
    );
    t.manager.record_update(TEST_BRANCH, "items", offset4, &StateOperation::Append(b"3".to_vec()));

    // Reconstruction should start from snapshot
    let state = t.get_state("items").unwrap().unwrap();
    let arr: Vec<i32> = serde_json::from_slice(&state).unwrap();
    assert_eq!(arr, vec![1, 2, 3]);

    // Check ops_since_delta_snapshot
    let head = t.manager.get_head(TEST_BRANCH, "items").unwrap();
    assert_eq!(head.ops_since_delta_snapshot, 1);
}

#[test]
fn test_cache_hit() {
    let mut t = Setup::new();

    t.manager.register_state(StateRegistration {
            id: "data".to_string(),
            strategy: StateStrategy::Snapshot,
            initial_value: None,
        })
        .unwrap();

    let offset = t.append("data",
        None,
        StateOperation::SetValue(b"\"cached\"".to_vec()),
        1,
    );
    t.manager.record_update(TEST_BRANCH, "data", offset, &StateOperation::SetValue(b"\"cached\"".to_vec()));

    // First call - cache miss
    assert_eq!(t.manager.cache_len(), 0);
    let _ = t.get_state("data").unwrap();
    assert_eq!(t.manager.cache_len(), 1);

    // Second call - cache hit (no additional disk reads)
    let state = t.get_state("data").unwrap().unwrap();
    assert_eq!(state, b"\"cached\"");
    assert_eq!(t.manager.cache_len(), 1);
}

#[test]
fn test_cache_invalidation() {
    let mut t = Setup::new();

    t.manager.register_state(StateRegistration {
            id: "data".to_string(),
            strategy: StateStrategy::Snapshot,
            initial_value: None,
        })
        .unwrap();

    let offset1 = t.append("data",
        None,
        StateOperation::SetValue(b"\"v1\"".to_vec()),
        1,
    );
    t.manager.record_update(TEST_BRANCH, "data", offset1, &StateOperation::SetValue(b"\"v1\"".to_vec()));

    // Populate cache
    let _ = t.get_state("data").unwrap();
    assert_eq!(t.manager.cache_len(), 1);

    // Update invalidates cache
    let offset2 = t.append("data",
        Some(offset1),
        StateOperation::SetValue(b"\"v2\"".to_vec()),
        2,
    );
    t.manager.record_update(TEST_BRANCH, "data", offset2, &StateOperation::SetValue(b"\"v2\"".to_vec()));
    assert_eq!(t.manager.cache_len(), 0);

    // Next read gets new value
    let state = t.get_state("data").unwrap().unwrap();
    assert_eq!(state, b"\"v2\"");
}

#[test]
fn test_nonexistent_state() {
    let mut t = Setup::new();

    let state = t.get_state("nonexistent").unwrap();
    assert!(state.is_none());
}

#[test]
fn test_persistence() {
    // Create and save
    let mut t = Setup::new();
    t.manager.register_state(StateRegistration {
        id: "test".to_string(),
        strategy: StateStrategy::Snapshot,
        initial_value: None,
    }).unwrap();
    let offset = t.append("test", None, StateOperation::SetValue(b"\"persisted\"".to_vec()), 1);
    t.manager.record_update(TEST_BRANCH, "test", offset, &StateOperation::SetValue(b"\"persisted\"".to_vec()));
    let index = saved(&t.manager);

    // Load and verify
    let mut manager = StateManager::load(index);
    let state = manager.get_state(&t.log, &t.updates, TEST_BRANCH, "test").unwrap().unwrap();
    assert_eq!(state, b"\"persisted\"");
}

#[test]
fn test_delta_snapshot_reconstruction() {
    let mut t = Setup::new();

    t.manager.register_state(StateRegistration {
            id: "items".to_string(),
            strategy: StateStrategy::AppendLog {
                delta_snapshot_every: 3,
                full_snapshot_every: 3,
            },
            initial_value: None,
        })
        .unwrap();

    // Build chain with appends
    let offset1 = t.append("items",
        None,
        StateOperation::Append(b"1".to_vec()),
        1,
    );
    t.manager.record_update(TEST_BRANCH, "items", offset1, &StateOperation::Append(b"1".to_vec()));

    let offset2 = t.append("items",
        Some(offset1),
        StateOperation::Append(b"2".to_vec()),
        2,
    );
    t.manager.record_update(TEST_BRANCH, "items", offset2, &StateOperation::Append(b"2".to_vec()));

    // Delta snapshot
    let delta_data = serde_json::to_vec(&[1, 2]).unwrap();
    let delta_op = StateOperation::DeltaSnapshot(delta_data.clone());
    let offset3 = t.append("items", Some(offset2), delta_op.clone(), 3);
    t.manager.record_update(TEST_BRANCH, "items", offset3, &delta_op);

    // More appends after delta
    let offset4 = t.append("items",
        Some(offset3),
        StateOperation::Append(b"3".to_vec()),
        4,
    );
    t.manager.record_update(TEST_BRANCH, "items", offset4, &StateOperation::Append(b"3".to_vec()));

    let offset5 = t.append("items",
        Some(offset4),
        StateOperation::Append(b"4".to_vec()),
        5,
    );
    t.manager.record_update(TEST_BRANCH, "items", offset5, &StateOperation::Append(b"4".to_vec()));

    // Reconstruct - should use delta snapshot as base
    let state = t.get_state("items").unwrap().unwrap();
    let arr: Vec<i32> = serde_json::from_slice(&state).unwrap();
    assert_eq!(arr, vec![1, 2, 3, 4]);

    // Check tracking
    let head = t.manager.get_head(TEST_BRANCH, "items").unwrap();
    assert_eq!(head.ops_since_delta_snapshot, 2); // Two appends after delta
    assert_eq!(head.delta_snapshots_since_full, 1); // One delta snapshot
}

#[test]
fn test_multiple_delta_snapshots_reconstruction() {
    let mut t = Setup::new();

    t.manager.register_state(StateRegistration {
            id: "items".to_string(),
            strategy: StateStrategy::AppendLog {
                delta_snapshot_every: 2,
                full_snapshot_every: 5,
            },
            initial_value: None,
        })
        .unwrap();

    // First delta snapshot: [1, 2]
    let delta1 = serde_json::to_vec(&[1, 2]).unwrap();
    let op1 = StateOperation::DeltaSnapshot(delta1);
    let offset1 = t.append("items", None, op1.clone(), 1);
    t.manager.record_update(TEST_BRANCH, "items", offset1, &op1);

    // Second delta snapshot: [3, 4]
    let delta2 = serde_json::to_vec(&[3, 4]).unwrap();
    let op2 = StateOperation::DeltaSnapshot(delta2);
    let offset2 = t.append("items", Some(offset1), op2.clone(), 2);
    t.manager.record_update(TEST_BRANCH, "items", offset2, &op2);

    // Append after deltas
    let offset3 = t.append("items",
        Some(offset2),
        StateOperation::Append(b"5".to_vec()),
        3,
    );
    t.manager.record_update(TEST_BRANCH, "items", offset3, &StateOperation::Append(b"5".to_vec()));

    // Reconstruct - should traverse both delta snapshots
    let state = t.get_state("items").unwrap().unwrap();
    let arr: Vec<i32> = serde_json::from_slice(&state).unwrap();
    assert_eq!(arr, vec![1, 2, 3, 4, 5]);

    // Check tracking
    let head = t.manager.get_head(TEST_BRANCH, "items").unwrap();
    assert_eq!(head.delta_snapshots_since_full, 2);
}

#[test]
fn test_full_snapshot_resets_deltas() {
    let mut t = Setup::new();

    t.manager.register_state(StateRegistration {
            id: "items".to_string(),
            strategy: StateStrategy::AppendLog {
                delta_snapshot_every: 2,
                full_snapshot_every: 2,
            },
            initial_value: None,
        })
        .unwrap();

    // Delta snapshot
    let delta1 = serde_json::to_vec(&[1, 2]).unwrap();
    let op1 = StateOperation::DeltaSnapshot(delta1);
    let offset1 = t.append("items", None, op1.clone(), 1);
    t.manager.record_update(TEST_BRANCH, "items", offset1, &op1);

    assert_eq!(
        t.manager.get_head(TEST_BRANCH, "items").unwrap().delta_snapshots_since_full,
        1
    );

    // Full snapshot - should reset delta counter
    let full = serde_json::to_vec(&[1, 2]).unwrap();
    let op2 = StateOperation::Snapshot(full);
    let offset2 = t.append("items", Some(offset1), op2.clone(), 2);
    t.manager.record_update(TEST_BRANCH, "items", offset2, &op2);

    let head = t.manager.get_head(TEST_BRANCH, "items").unwrap();
    assert_eq!(head.delta_snapshots_since_full, 0);
    assert!(head.last_full_snapshot_offset.is_some());
}

#[test]
fn test_snapshot_needed_logic() {
    let mut t = Setup::new();

    t.manager.register_state(StateRegistration {
            id: "items".to_string(),
            strategy: StateStrategy::AppendLog {
                delta_snapshot_every: 3,
                full_snapshot_every: 2,
            },
            initial_value: None,
        })
        .unwrap();

    // No head yet, no snapshot needed
    assert!(t.manager.snapshot_needed(TEST_BRANCH, "items").is_none());
}

fn applied(state: &[u8], op: StateOperation) -> String {
    String::from_utf8(apply_operation(state.to_vec(), op).unwrap()).unwrap()
}

#[test]
fn operations_build_arrays() {
    assert_eq!(applied(b"", StateOperation::Append(b"1".to_vec())), "[1]");
    assert_eq!(applied(b"[1]", StateOperation::Append(b"\"two\"".to_vec())), "[1,\"two\"]");
    assert_eq!(applied(b"[1,2,3]", StateOperation::Edit { index: 1, new_value: b"9".to_vec() }), "[1,9,3]");
    assert_eq!(applied(b"[1,2,3,4]", StateOperation::Redact { start: 1, end: 3 }), "[1,4]");
    assert_eq!(applied(b"[1]", StateOperation::DeltaSnapshot(b"[2,3]".to_vec())), "[1,2,3]");
    assert_eq!(applied(b"[1]", StateOperation::Snapshot(b"[7]".to_vec())), "[7]");
    assert_eq!(applied(b"junk", StateOperation::SetValue(b"anything".to_vec())), "anything");
}

#[test]
fn operations_that_do_not_fit_are_refused() {
    assert!(matches!(
        apply_operation(b"[1]".to_vec(), StateOperation::Edit { index: 1, new_value: b"2".to_vec() }),
        Err(StoreError::InvalidOperation(_))
    ));
    assert!(apply_operation(b"{}".to_vec(), StateOperation::Append(b"1".to_vec())).is_err());
    assert!(apply_operation(b"[]".to_vec(), StateOperation::Append(b"not json".to_vec())).is_err());
    assert!(apply_operation(b"[1".to_vec(), StateOperation::Append(b"1".to_vec())).is_err());
}

#[test]
fn tree_operations_keep_paths_sorted() {
    let entry = |n: u64| TreeEntry { blob_hash: "h".to_string(), size: n, mode: 420 };
    let one = applied(b"", StateOperation::TreeSet { path: "b".to_string(), entry: entry(1) });
    let two = applied(one.as_bytes(), StateOperation::TreeSet { path: "a".to_string(), entry: entry(2) });
    assert_eq!(
        two,
        "{\"a\":{\"blob_hash\":\"h\",\"size\":2,\"mode\":420},\"b\":{\"blob_hash\":\"h\",\"size\":1,\"mode\":420}}"
    );
    let gone = applied(
        two.as_bytes(),
        StateOperation::TreeBatch {
            ops: vec![TreeOp::Remove { path: "a".to_string() }, TreeOp::Remove { path: "c".to_string() }],
        },
    );
    assert_eq!(gone, "{\"b\":{\"blob_hash\":\"h\",\"size\":1,\"mode\":420}}");
}

#[test]
fn delta_replaces_the_value() {
    let op = StateOperation::Delta { old_hash: chronicle::types::Hash::from_bytes(b"old"), new_value: b"new".to_vec() };
    assert_eq!(applied(b"old", op), "new");
}

#[test]
fn snapshots_fall_due_by_count() {
    let mut t = Setup::new();
    t.manager.register_state(StateRegistration {
        id: "items".to_string(),
        strategy: StateStrategy::AppendLog { delta_snapshot_every: 2, full_snapshot_every: 1 },
        initial_value: None,
    }).unwrap();
    let op = StateOperation::Append(b"1".to_vec());
    let a = t.append("items", None, op.clone(), 1);
    t.manager.record_update(TEST_BRANCH, "items", a, &op);
    assert_eq!(t.manager.snapshot_needed(TEST_BRANCH, "items"), None);
    assert!(!t.manager.needs_snapshot(TEST_BRANCH, "items"));
    let b = t.append("items", Some(a), op.clone(), 2);
    t.manager.record_update(TEST_BRANCH, "items", b, &op);
    assert_eq!(t.manager.snapshot_needed(TEST_BRANCH, "items"), Some(SnapshotNeeded::Delta));
    let delta = StateOperation::DeltaSnapshot(b"[1,1]".to_vec());
    let c = t.append("items", Some(b), delta.clone(), 3);
    t.manager.record_update(TEST_BRANCH, "items", c, &delta);
    assert_eq!(t.manager.snapshot_needed(TEST_BRANCH, "items"), Some(SnapshotNeeded::Full));
}

#[test]
fn an_edit_asks_for_a_full_snapshot() {
    let mut t = Setup::new();
    t.manager.register_state(StateRegistration {
        id: "items".to_string(),
        strategy: StateStrategy::AppendLog { delta_snapshot_every: 2, full_snapshot_every: 10 },
        initial_value: None,
    }).unwrap();
    let op = StateOperation::Append(b"1".to_vec());
    let edit = StateOperation::Edit { index: 0, new_value: b"2".to_vec() };
    let a = t.append("items", None, op.clone(), 1);
    t.manager.record_update(TEST_BRANCH, "items", a, &op);
    let b = t.append("items", Some(a), edit.clone(), 2);
    t.manager.record_update(TEST_BRANCH, "items", b, &edit);
    assert_eq!(t.manager.snapshot_needed(TEST_BRANCH, "items"), Some(SnapshotNeeded::Full));
}

#[test]
fn states_are_registered_once() {
    let mut manager = StateManager::with_cache_size(4);
    let registration = || StateRegistration {
        id: "a".to_string(),
        strategy: StateStrategy::Snapshot,
        initial_value: None,
    };
    manager.register_state(registration()).unwrap();
    assert!(matches!(manager.register_state(registration()), Err(StoreError::StateExists(id)) if id == "a"));
    assert_eq!(manager.state_count(), 1);
    assert_eq!(manager.state_ids(), vec!["a".to_string()]);
    assert!(matches!(manager.get_strategy("a"), Some(StateStrategy::Snapshot)));
    assert!(manager.get_strategy("b").is_none());
}

#[test]
fn copied_heads_give_the_same_value() {
    let mut t = Setup::new();
    let op = StateOperation::SetValue(b"1".to_vec());
    let a = t.append("x", None, op.clone(), 1);
    t.manager.record_update(TEST_BRANCH, "x", a, &op);
    t.manager.copy_heads_for_branch(TEST_BRANCH, BranchId(2));
    let other = t.manager.get_state(&t.log, &t.updates, BranchId(2), "x").unwrap();
    assert_eq!(other, Some(b"1".to_vec()));
}

#[test]
fn updates_have_to_point_back() {
    let mut table = UpdateTable::new();
    let update = |prev: Option<u64>| StateUpdateRecord {
        record_id: RecordId(1),
        global_sequence: Sequence(1),
        state_id: "s".to_string(),
        prev_update_offset: prev,
        operation: StateOperation::SetValue(vec![]),
        timestamp: Timestamp(0),
    };
    table.add(10, update(None)).unwrap();
    assert!(table.add(10, update(None)).is_err());
    assert!(table.add(20, update(Some(20))).is_err());
    table.add(20, update(Some(10))).unwrap();
    assert_eq!(table.len(), 2);
}
