use chronicle::blobs::storage::BlobFile;
use chronicle::types::{Blob, RecordId, StateUpdateRecord};
use chronicle::{
    BranchIndex, Branch, ChainStats, CompactionStats, CompactionSummary, Record, RecordInput, Sequence, StateIndex,
    StateOperation, StateRegistration, StateStrategy, StoreError, StoreEvent, StoreFiles, StoreStats,
    SubscriptionConfig, SubscriptionFilter, SubscriptionId, TreeChange, TreeEntry, TreeOp,
};
use std::cell::RefCell;
use std::collections::HashMap;

/// A store in memory. An update is recorded as its debug text, and found again by it.
struct Handle {
    store: RefCell<chronicle::Store>,
    updates: RefCell<HashMap<Vec<u8>, StateUpdateRecord>>,
}

impl Handle {
    fn create() -> Self {
        Handle {
            store: RefCell::new(chronicle::Store::create(StoreFiles::none(), 100).unwrap()),
            updates: RefCell::new(HashMap::new()),
        }
    }

    /// What the files of the store would hold.
    fn files(&self) -> StoreFiles {
        let store = self.store.borrow();
        let known = self.updates.borrow();
        let mut updates = vec![];
        let mut records = store.record_log().iter();
        while let Some(Ok((offset, record))) = records.next() {
            if let Some(update) = known.get(&record.payload) {
                updates.push((offset, update.clone()));
            }
        }
        let states = store.states().state_index();
        let branches = store.branches().branch_index();
        let blobs = store.blobs();
        StoreFiles {
            manifest: StoreFiles::none().manifest,
            log: store.record_log().bytes().to_vec(),
            meta: Some(store.record_log().meta()),
            blobs: blobs
                .list()
                .iter()
                .map(|h| BlobFile { shard: h.shard_prefix(), name: h.to_hex(), bytes: blobs.file(h).unwrap() })
                .collect(),
            states: StateIndex { heads: states.heads.to_vec(), strategies: states.strategies.to_vec() },
            branches: Some((
                BranchIndex { branches: branches.branches.to_vec(), next_id: branches.next_id },
                store.branches().current_id(),
            )),
            updates,
            wal: store.wal().entries().to_vec(),
        }
    }

    fn reopen(self) -> Self {
        let store = chronicle::Store::open(self.files(), 100).unwrap();
        Handle { store: RefCell::new(store), updates: self.updates }
    }

    fn encode(&self, update: &StateUpdateRecord) -> Result<Vec<u8>, StoreError> {
        let text = format!("{:?}", update).into_bytes();
        self.updates.borrow_mut().insert(text.clone(), update.clone());
        Ok(text)
    }

    fn append(&self, input: RecordInput) -> Result<Record, StoreError> {
        self.store.borrow_mut().append(input)
    }

    fn sync(&self) {
        self.store.borrow_mut().sync()
    }

    fn get_record(&self, id: RecordId) -> Result<Option<Record>, StoreError> {
        self.store.borrow().get_record(id)
    }

    fn get_records_by_type(&self, record_type: &str) -> Vec<RecordId> {
        self.store.borrow().get_records_by_type(record_type)
    }

    fn store_blob(&self, content: &[u8], content_type: &str) -> chronicle::types::Hash {
        self.store.borrow_mut().store_blob(content, content_type)
    }

    fn get_blob(&self, hash: &chronicle::types::Hash) -> Result<Option<Blob>, StoreError> {
        self.store.borrow_mut().get_blob(hash)
    }

    fn register_state(&self, registration: StateRegistration) -> Result<(), StoreError> {
        self.store.borrow_mut().register_state(registration)
    }

    fn update_state(&self, id: &str, operation: StateOperation) -> Result<Record, StoreError> {
        self.store.borrow_mut().update_state(id, operation, &|u: &StateUpdateRecord| self.encode(u))
    }

    fn create_snapshot_if_needed(&self, id: &str) -> Result<Option<Record>, StoreError> {
        self.store.borrow_mut().create_snapshot_if_needed(id, &|u: &StateUpdateRecord| self.encode(u))
    }

    fn compact_state(&self, id: &str) -> Result<Option<Record>, StoreError> {
        self.store.borrow_mut().compact_state(id, &|u: &StateUpdateRecord| self.encode(u))
    }

    fn compact_all_states(&self) -> Result<usize, StoreError> {
        self.store.borrow_mut().compact_all_states(&|u: &StateUpdateRecord| self.encode(u))
    }

    fn tree_set(&self, id: &str, path: &str, entry: &TreeEntry) -> Result<Record, StoreError> {
        self.store.borrow_mut().tree_set(id, path, entry, &|u: &StateUpdateRecord| self.encode(u))
    }

    fn tree_remove(&self, id: &str, path: &str) -> Result<Record, StoreError> {
        self.store.borrow_mut().tree_remove(id, path, &|u: &StateUpdateRecord| self.encode(u))
    }

    fn tree_batch(&self, id: &str, ops: &Vec<TreeOp>) -> Result<Record, StoreError> {
        self.store.borrow_mut().tree_batch(id, ops, &|u: &StateUpdateRecord| self.encode(u))
    }

    fn tree_get(&self, id: &str, path: &str) -> Result<Option<TreeEntry>, StoreError> {
        self.store.borrow_mut().tree_get(id, path)
    }

    fn tree_list(&self, id: &str, prefix: Option<&str>) -> Result<Vec<(String, TreeEntry)>, StoreError> {
        self.store.borrow_mut().tree_list(id, prefix)
    }

    fn tree_diff(&self, id: &str, from: Sequence, to: Sequence) -> Result<Vec<TreeChange>, StoreError> {
        self.store.borrow().tree_diff(id, from, to)
    }

    fn get_state(&self, id: &str) -> Result<Option<Vec<u8>>, StoreError> {
        self.store.borrow_mut().get_state(id)
    }

    fn get_state_at(&self, id: &str, at: Sequence) -> Result<Option<Vec<u8>>, StoreError> {
        self.store.borrow().get_state_at(id, at)
    }

    fn get_state_len(&self, id: &str) -> Result<Option<usize>, StoreError> {
        self.store.borrow().get_state_len(id)
    }

    fn get_state_slice(&self, id: &str, offset: usize, limit: usize) -> Result<Option<Vec<u8>>, StoreError> {
        self.store.borrow_mut().get_state_slice(id, offset, limit)
    }

    fn get_state_tail(&self, id: &str, count: usize) -> Result<Option<Vec<u8>>, StoreError> {
        self.store.borrow_mut().get_state_tail(id, count)
    }

    /// The items that an iterator over a state gives.
    fn items(&self, id: &str) -> Vec<Vec<u8>> {
        let store = self.store.borrow();
        let mut iter = store.iter_state_items(id).unwrap().unwrap();
        let mut out = vec![];
        while let Some(item) = iter.next() {
            out.push(item.unwrap());
        }
        out
    }

    fn get_chain_stats(&self, id: &str) -> Result<Option<ChainStats>, StoreError> {
        self.store.borrow().get_chain_stats(id)
    }

    fn get_compaction_summary(&self) -> Result<CompactionSummary, StoreError> {
        self.store.borrow().get_compaction_summary()
    }

    fn get_compaction_stats(&self, id: &str) -> Option<CompactionStats> {
        self.store.borrow().get_compaction_stats(id)
    }

    fn create_branch(&self, name: &str, from: Option<&str>) -> Result<Branch, StoreError> {
        self.store.borrow_mut().create_branch(name, from)
    }

    fn create_branch_at(&self, name: &str, from: &str, at: Sequence) -> Result<Branch, StoreError> {
        self.store.borrow_mut().create_branch_at(name, from, at)
    }

    fn switch_branch(&self, name: &str) -> Result<Branch, StoreError> {
        self.store.borrow_mut().switch_branch(name)
    }

    fn delete_branch(&self, name: &str) -> Result<(), StoreError> {
        self.store.borrow_mut().delete_branch(name)
    }

    fn current_branch(&self) -> Result<Branch, StoreError> {
        self.store.borrow().current_branch()
    }

    fn list_branches(&self) -> Vec<Branch> {
        self.store.borrow().list_branches()
    }

    fn stats(&self) -> StoreStats {
        self.store.borrow().stats()
    }

    fn subscribe(&self, config: SubscriptionConfig) -> Listener<'_> {
        Listener { id: self.store.borrow_mut().subscribe(config), handle: self }
    }

    fn unsubscribe(&self, id: SubscriptionId) {
        self.store.borrow_mut().unsubscribe(id)
    }

    fn subscription_count(&self) -> usize {
        self.store.borrow().subscription_count()
    }

    fn catch_up_subscription(&self, id: SubscriptionId) -> Result<(), StoreError> {
        self.store.borrow_mut().catch_up_subscription(id)
    }

    fn mark_subscription_caught_up(&self, id: SubscriptionId) -> Result<(), StoreError> {
        self.store.borrow_mut().mark_subscription_caught_up(id)
    }
}

/// One who has subscribed to a store.
struct Listener<'a> {
    id: SubscriptionId,
    handle: &'a Handle,
}

impl Listener<'_> {
    /// The next event; an error if none waits.
    fn recv(&self) -> Result<StoreEvent, String> {
        match self.handle.store.borrow_mut().next_event(self.id) {
            Ok(Some(event)) => Ok(event),
            Ok(None) => Err("nothing waits".to_string()),
            Err(e) => Err(e.message()),
        }
    }
}

const RECORD_COUNT: usize = 50_000;

fn append_log(id: &str, delta_snapshot_every: u64, full_snapshot_every: u64) -> StateRegistration {
    StateRegistration {
        id: id.to_string(),
        strategy: StateStrategy::AppendLog { delta_snapshot_every, full_snapshot_every },
        initial_value: None,
    }
}

fn tree(id: &str, delta_snapshot_every: u64, full_snapshot_every: u64) -> StateRegistration {
    StateRegistration {
        id: id.to_string(),
        strategy: StateStrategy::Tree { delta_snapshot_every, full_snapshot_every },
        initial_value: None,
    }
}

fn snapshot(id: &str) -> StateRegistration {
    StateRegistration { id: id.to_string(), strategy: StateStrategy::Snapshot, initial_value: None }
}

fn entry(hash: &str, size: u64) -> TreeEntry {
    TreeEntry { blob_hash: hash.to_string(), size, mode: 0o644 }
}

fn numbers(state: &[u8]) -> Vec<i32> {
    serde_json::from_slice(state).unwrap()
}

fn values(state: &[u8]) -> Vec<serde_json::Value> {
    serde_json::from_slice(state).unwrap()
}

#[test]
fn test_append_record() {
    let store = Handle::create();

    let input = RecordInput::json("message", b"{\"text\":\"Hello\"}".to_vec());
    let record = store.append(input).unwrap();

    assert_eq!(record.sequence, Sequence(1));
    assert_eq!(record.record_type, "message");
}

#[test]
fn test_get_record() {
    let store = Handle::create();

    let input = RecordInput::json("message", b"{\"text\":\"Hello\"}".to_vec());
    let record = store.append(input).unwrap();

    let retrieved = store.get_record(record.id).unwrap().unwrap();
    assert_eq!(retrieved.id, record.id);
    assert_eq!(retrieved.payload, record.payload);
}

#[test]
fn test_store_blob() {
    let store = Handle::create();

    let content = b"function hello() { return 'world'; }";
    let hash = store.store_blob(content, "application/javascript");

    let blob = store.get_blob(&hash).unwrap().unwrap();
    assert_eq!(blob.content, content);
    assert_eq!(blob.content_type, "application/javascript");
}

#[test]
fn test_state_operations() {
    let store = Handle::create();

    // Register state
    store.register_state(snapshot("counter")).unwrap();

    // Update state
    store.update_state("counter", StateOperation::SetValue(b"42".to_vec())).unwrap();

    // Get state
    let value = store.get_state("counter").unwrap().unwrap();
    assert_eq!(value, b"42");
}

#[test]
fn test_branch_operations() {
    let store = Handle::create();

    // Append to main
    let input = RecordInput::json("message", b"{\"text\":\"main\"}".to_vec());
    store.append(input).unwrap();

    // Create branch
    store.create_branch("feature", None).unwrap();
    store.switch_branch("feature").unwrap();

    // Append to feature
    let input = RecordInput::json("message", b"{\"text\":\"feature\"}".to_vec());
    let record = store.append(input).unwrap();

    assert_eq!(record.sequence, Sequence(2));

    // Check branch list
    let branches = store.list_branches();
    assert_eq!(branches.len(), 2);
}

#[test]
fn test_stats() {
    let store = Handle::create();

    let input = RecordInput::json("message", b"{\"text\":\"Hello\"}".to_vec());
    store.append(input).unwrap();

    store.store_blob(b"content", "text/plain");

    let stats = store.stats();
    assert_eq!(stats.record_count, 1);
    assert_eq!(stats.blob_count, 1);
    assert_eq!(stats.branch_count, 1);
}

#[test]
fn test_get_state_len() {
    let store = Handle::create();

    // Nonexistent state
    assert_eq!(store.get_state_len("messages").unwrap(), None);

    // Register state
    store.register_state(append_log("messages", 100, 10)).unwrap();

    // Empty state
    assert_eq!(store.get_state_len("messages").unwrap(), None);

    // Add items
    for i in 1..=5 {
        store.update_state("messages", StateOperation::Append(format!("{{\"id\":{}}}", i).into_bytes())).unwrap();
    }

    assert_eq!(store.get_state_len("messages").unwrap(), Some(5));
}

#[test]
fn test_get_state_slice() {
    let store = Handle::create();

    store.register_state(append_log("items", 100, 10)).unwrap();

    // Add items
    for i in 1..=10 {
        store.update_state("items", StateOperation::Append(serde_json::to_vec(&i).unwrap())).unwrap();
    }

    // Get middle slice
    let slice = store.get_state_slice("items", 3, 4).unwrap().unwrap();
    let arr: Vec<i32> = serde_json::from_slice(&slice).unwrap();
    assert_eq!(arr, vec![4, 5, 6, 7]);

    // Get first slice
    let slice = store.get_state_slice("items", 0, 3).unwrap().unwrap();
    let arr: Vec<i32> = serde_json::from_slice(&slice).unwrap();
    assert_eq!(arr, vec![1, 2, 3]);

    // Get end slice
    let slice = store.get_state_slice("items", 8, 10).unwrap().unwrap();
    let arr: Vec<i32> = serde_json::from_slice(&slice).unwrap();
    assert_eq!(arr, vec![9, 10]);

    // Out of bounds
    let slice = store.get_state_slice("items", 15, 5).unwrap().unwrap();
    let arr: Vec<i32> = serde_json::from_slice(&slice).unwrap();
    assert_eq!(arr, Vec::<i32>::new());
}

#[test]
fn test_get_state_tail() {
    let store = Handle::create();

    store.register_state(append_log("items", 100, 10)).unwrap();

    // Add items
    for i in 1..=10 {
        store.update_state("items", StateOperation::Append(serde_json::to_vec(&i).unwrap())).unwrap();
    }

    // Get last 3
    let tail = store.get_state_tail("items", 3).unwrap().unwrap();
    let arr: Vec<i32> = serde_json::from_slice(&tail).unwrap();
    assert_eq!(arr, vec![8, 9, 10]);

    // Get last 1
    let tail = store.get_state_tail("items", 1).unwrap().unwrap();
    let arr: Vec<i32> = serde_json::from_slice(&tail).unwrap();
    assert_eq!(arr, vec![10]);

    // Get more than exists
    let tail = store.get_state_tail("items", 20).unwrap().unwrap();
    let arr: Vec<i32> = serde_json::from_slice(&tail).unwrap();
    assert_eq!(arr, vec![1, 2, 3, 4, 5, 6, 7, 8, 9, 10]);

    // Get zero
    let tail = store.get_state_tail("items", 0).unwrap().unwrap();
    let arr: Vec<i32> = serde_json::from_slice(&tail).unwrap();
    assert_eq!(arr, Vec::<i32>::new());
}

#[test]
fn test_iter_state_items() {
    let store = Handle::create();

    store.register_state(append_log("items", 100, 10)).unwrap();

    // Add items
    for i in 1..=5 {
        store.update_state("items", StateOperation::Append(serde_json::to_vec(&i).unwrap())).unwrap();
    }

    // Iterate
    let collected: Vec<i32> =
        store.items("items").iter().map(|r| serde_json::from_slice(r).unwrap()).collect();

    assert_eq!(collected, vec![1, 2, 3, 4, 5]);
}

#[test]
fn test_lazy_loading_with_snapshots() {
    let store = Handle::create();

    store.register_state(append_log("items", 3, 2)).unwrap();

    // Add items - this will trigger snapshots
    for i in 1..=10 {
        store.update_state("items", StateOperation::Append(serde_json::to_vec(&i).unwrap())).unwrap();
        // Create snapshot if needed
        store.create_snapshot_if_needed("items").unwrap();
    }

    // Verify tail still works with snapshots
    let tail = store.get_state_tail("items", 3).unwrap().unwrap();
    let arr: Vec<i32> = serde_json::from_slice(&tail).unwrap();
    assert_eq!(arr, vec![8, 9, 10]);

    // Verify iteration still works
    let collected: Vec<i32> =
        store.items("items").iter().map(|r| serde_json::from_slice(r).unwrap()).collect();
    assert_eq!(collected, vec![1, 2, 3, 4, 5, 6, 7, 8, 9, 10]);
}

#[test]
fn test_compact_state() {
    let store = Handle::create();

    store.register_state(append_log("items", 100, 100)).unwrap();

    // Add items without auto-snapshot
    for i in 1..=10 {
        store.update_state("items", StateOperation::Append(serde_json::to_vec(&i).unwrap())).unwrap();
    }

    // Check chain stats before compaction
    let stats_before = store.get_chain_stats("items").unwrap().unwrap();
    assert_eq!(stats_before.total_operations, 10);
    assert!(!stats_before.has_full_snapshot);

    // Compact
    let record = store.compact_state("items").unwrap().unwrap();
    assert_eq!(record.record_type, "state_update");

    // Check chain stats after compaction
    let stats_after = store.get_chain_stats("items").unwrap().unwrap();
    assert_eq!(stats_after.total_operations, 11); // 10 appends + 1 snapshot
    assert!(stats_after.has_full_snapshot);
    assert_eq!(stats_after.operations_before_snapshot, 10); // All old ops before snapshot

    // State should still be correct
    let state = store.get_state("items").unwrap().unwrap();
    let arr: Vec<i32> = serde_json::from_slice(&state).unwrap();
    assert_eq!(arr, vec![1, 2, 3, 4, 5, 6, 7, 8, 9, 10]);
}

#[test]
fn test_compaction_summary() {
    let store = Handle::create();

    // Create two states
    store.register_state(append_log("state1", 100, 100)).unwrap();

    store.register_state(snapshot("state2")).unwrap();

    // Add operations
    for i in 1..=5 {
        store.update_state("state1", StateOperation::Append(serde_json::to_vec(&i).unwrap())).unwrap();
    }

    store.update_state("state2", StateOperation::SetValue(b"\"v1\"".to_vec())).unwrap();
    store.update_state("state2", StateOperation::SetValue(b"\"v2\"".to_vec())).unwrap();

    // Check summary
    let summary = store.get_compaction_summary().unwrap();
    assert_eq!(summary.total_operations, 7); // 5 appends + 2 sets
    assert!(summary.compactable_operations > 0);

    // Compact all
    let compacted = store.compact_all_states().unwrap();
    assert_eq!(compacted, 2);

    // State values should be preserved
    let state1 = store.get_state("state1").unwrap().unwrap();
    let arr: Vec<i32> = serde_json::from_slice(&state1).unwrap();
    assert_eq!(arr, vec![1, 2, 3, 4, 5]);

    let state2 = store.get_state("state2").unwrap().unwrap();
    assert_eq!(state2, b"\"v2\"");
}

#[test]
fn test_get_compaction_stats() {
    let store = Handle::create();

    store.register_state(append_log("items", 3, 2)).unwrap();

    // No stats for state with no updates
    assert!(store.get_compaction_stats("items").is_none());

    // Add some operations - auto-snapshot kicks in at 3
    for i in 1..=5 {
        store.update_state("items", StateOperation::Append(serde_json::to_vec(&i).unwrap())).unwrap();
    }

    // After 5 appends with delta_snapshot_every=3:
    // - Appends 1,2,3 -> delta snapshot auto-created (ops=0, deltas=1)
    // - Appends 4,5 -> ops=2
    // So: ops_since_last_full = 2 ops + 1 delta = 3
    let stats = store.get_compaction_stats("items").unwrap();
    assert_eq!(stats.ops_since_last_full_snapshot, 3); // 2 ops + 1 delta
    assert_eq!(stats.delta_snapshots_since_full, 1);
    assert!(stats.last_full_snapshot_offset.is_none());
    assert!(stats.last_delta_snapshot_offset.is_some());
}

#[test]
fn test_subscription_catch_up_records() {
    let store = Handle::create();

    // Create some records first
    for i in 1..=5 {
        store.append(RecordInput::json("message", format!("{{\"i\":{}}}", i).into_bytes())).unwrap();
    }

    // Subscribe from sequence 3
    let config = SubscriptionConfig {
        filter: SubscriptionFilter::records(),
        from_sequence: Some(Sequence(3)),
        ..Default::default()
    };
    let handle = store.subscribe(config);

    // Perform catch-up
    store.catch_up_subscription(handle.id).unwrap();

    // Should receive records 3, 4, 5 (sequences >= 3)
    let mut received = Vec::new();
    while let Ok(event) = handle.recv() {
        match event {
            StoreEvent::Record { record } => {
                received.push(record.sequence.0);
            }
            StoreEvent::CaughtUp => break,
            _ => {}
        }
    }

    assert_eq!(received, vec![3, 4, 5]);
}

#[test]
fn test_subscription_catch_up_state() {
    let store = Handle::create();

    // Register and populate state
    store.register_state(snapshot("counter")).unwrap();

    // Update state a few times
    store.update_state("counter", StateOperation::SetValue(b"10".to_vec())).unwrap();
    let seq2 = store.update_state("counter", StateOperation::SetValue(b"20".to_vec())).unwrap();
    store.update_state("counter", StateOperation::SetValue(b"30".to_vec())).unwrap();

    // Subscribe to state from seq2
    let config = SubscriptionConfig {
        filter: SubscriptionFilter::states(vec!["counter".to_string()]),
        from_sequence: Some(seq2.sequence),
        ..Default::default()
    };
    let handle = store.subscribe(config);

    // Perform catch-up
    store.catch_up_subscription(handle.id).unwrap();

    // Should receive state snapshot at seq2 (value 20)
    let event = handle.recv().unwrap();
    match event {
        StoreEvent::StateSnapshot { state_id, data, .. } => {
            assert_eq!(state_id, "counter");
            assert_eq!(data, b"20");
        }
        _ => panic!("Expected StateSnapshot, got {:?}", event),
    }

    // Then CaughtUp
    let event = handle.recv().unwrap();
    assert!(matches!(event, StoreEvent::CaughtUp));
}

#[test]
fn test_subscription_catch_up_no_from_sequence() {
    let store = Handle::create();

    // Create some records
    for i in 1..=3 {
        store.append(RecordInput::json("message", format!("{{\"i\":{}}}", i).into_bytes())).unwrap();
    }

    // Subscribe without from_sequence (live only)
    let config = SubscriptionConfig {
        filter: SubscriptionFilter::records(),
        from_sequence: None,
        ..Default::default()
    };
    let handle = store.subscribe(config);

    // Perform catch-up (should immediately mark as caught up)
    store.catch_up_subscription(handle.id).unwrap();

    // Should receive CaughtUp immediately, no historical records
    let event = handle.recv().unwrap();
    assert!(matches!(event, StoreEvent::CaughtUp));

    // No more events
    let result = handle.recv();
    assert!(result.is_err());
}

#[test]
fn store_test_persistence() {
    // Create and write
    let store = Handle::create();

    store.append(RecordInput::json("message", b"{\"text\":\"Hello\"}".to_vec())).unwrap();

    store.store_blob(b"content", "text/plain");

    store.register_state(snapshot("test")).unwrap();

    store.update_state("test", StateOperation::SetValue(b"value".to_vec())).unwrap();

    store.create_branch("feature", None).unwrap();

    store.sync();

    // Reopen and verify
    let store = store.reopen();

    assert_eq!(store.stats().record_count, 2); // message + state_update

    let branches = store.list_branches();
    assert_eq!(branches.len(), 2);

    let state = store.get_state("test").unwrap().unwrap();
    assert_eq!(state, b"value");
}

#[test]
fn test_get_unregistered_state() {
    let store = Handle::create();

    // Should return None, not error
    let result = store.get_state("nonexistent").unwrap();
    assert!(result.is_none());
}

#[test]
fn test_register_duplicate_state() {
    let store = Handle::create();

    store.register_state(snapshot("test")).unwrap();

    let result = store.register_state(snapshot("test"));

    assert!(matches!(result, Err(StoreError::StateExists(_))));
}

#[test]
fn test_edit_out_of_bounds() {
    let store = Handle::create();

    store.register_state(append_log("items", 10, 5)).unwrap();

    // Add one item
    store.update_state("items", StateOperation::Append(b"1".to_vec())).unwrap();

    // Try to edit at invalid index - should fail at write time
    let result = store.update_state("items",
        StateOperation::Edit {
            index: 5,
            new_value: b"999".to_vec(),
        },
    );

    assert!(matches!(result, Err(StoreError::InvalidOperation(_))));

    // State should still be valid
    let state = store.get_state("items").unwrap().unwrap();
    let arr: Vec<i32> = serde_json::from_slice(&state).unwrap();
    assert_eq!(arr, vec![1]);
}

#[test]
fn test_create_duplicate_branch() {
    let store = Handle::create();

    store.create_branch("feature", None).unwrap();

    let result = store.create_branch("feature", None);
    assert!(matches!(result, Err(StoreError::BranchExists(_))));
}

#[test]
fn test_switch_to_nonexistent_branch() {
    let store = Handle::create();

    let result = store.switch_branch("nonexistent");
    assert!(matches!(result, Err(StoreError::BranchNotFound(_))));
}

#[test]
fn test_delete_main_branch() {
    let store = Handle::create();

    let result = store.delete_branch("main");
    assert!(result.is_err());
}

#[test]
fn test_create_branch_from_nonexistent() {
    let store = Handle::create();

    let result = store.create_branch("new", Some("nonexistent"));
    assert!(matches!(result, Err(StoreError::BranchNotFound(_))));
}

#[test]
fn test_get_nonexistent_record() {
    let store = Handle::create();

    let result = store.get_record(RecordId(999)).unwrap();
    assert!(result.is_none());
}

#[test]
fn test_get_nonexistent_blob() {
    let store = Handle::create();

    let hash = chronicle::types::Hash::from_bytes(b"nonexistent");
    let result = store.get_blob(&hash).unwrap();
    assert!(result.is_none());
}

#[test]
fn test_append_to_non_array_state() {
    let store = Handle::create();

    store.register_state(snapshot("obj")).unwrap();

    // Set as object, not array
    store.update_state("obj", StateOperation::SetValue(b"{\"key\": \"value\"}".to_vec())).unwrap();

    // Appending to a Snapshot strategy state is now rejected at write time
    // (strategy validation catches the mismatch before it reaches the log)
    let result = store.update_state("obj", StateOperation::Append(b"1".to_vec()));
    assert!(matches!(result, Err(StoreError::InvalidOperation(_))));
}

#[test]
fn test_invalid_json_in_append() {
    let store = Handle::create();

    store.register_state(append_log("items", 10, 5)).unwrap();

    // Invalid JSON succeeds at write time (lazy validation for performance)
    // but fails on reconstruction/read
    store.update_state("items", StateOperation::Append(b"not valid json".to_vec())).unwrap();

    // Reading the state should fail during reconstruction
    let result = store.get_state("items");
    assert!(matches!(result, Err(StoreError::Deserialization(_))));
}

#[test]
fn test_empty_blob() {
    let store = Handle::create();

    let hash = store.store_blob(b"", "application/octet-stream");
    let blob = store.get_blob(&hash).unwrap().unwrap();

    assert!(blob.content.is_empty());
}

#[test]
fn test_empty_record_payload() {
    let store = Handle::create();

    let record = store.append(RecordInput::raw("empty", vec![])).unwrap();

    let retrieved = store.get_record(record.id).unwrap().unwrap();
    assert!(retrieved.payload.is_empty());
}

#[test]
fn test_unicode_in_state_id() {
    let store = Handle::create();

    store.register_state(snapshot("状態_🎉_данные")).unwrap();

    store.update_state("状態_🎉_данные", StateOperation::SetValue(b"\"value\"".to_vec())).unwrap();

    let state = store.get_state("状態_🎉_данные").unwrap().unwrap();
    assert_eq!(state, b"\"value\"");
}

#[test]
fn test_unicode_in_branch_name() {
    let store = Handle::create();

    store.create_branch("功能分支_🌿", None).unwrap();

    let branch = store.switch_branch("功能分支_🌿").unwrap();
    assert_eq!(branch.name, "功能分支_🌿");
}

#[test]
fn test_reject_zero_delta_snapshot_frequency() {
    let store = Handle::create();

    let result = store.register_state(append_log("bad", 0, 10));

    assert!(result.is_err(), "Should reject delta_snapshot_every=0");
    assert!(
        matches!(result.unwrap_err(), StoreError::InvalidOperation(_)),
        "Should be InvalidOperation error"
    );
}

#[test]
fn test_reject_zero_full_snapshot_frequency() {
    let store = Handle::create();

    let result = store.register_state(append_log("bad", 10, 0));

    assert!(result.is_err(), "Should reject full_snapshot_every=0");
}

#[test]
fn test_reject_zero_tree_snapshot_frequency() {
    let store = Handle::create();

    let result = store.register_state(tree("bad", 0, 5));

    assert!(result.is_err(), "Should reject zero tree snapshot frequency");
}

#[test]
fn test_accept_valid_snapshot_frequencies() {
    let store = Handle::create();

    // These should all succeed
    store.register_state(append_log("al", 1, 1)).unwrap();

    store.register_state(tree("tree", 100, 50)).unwrap();

    // Snapshot strategy has no frequency — should always work
    store.register_state(snapshot("snap")).unwrap();
}

#[test]
fn test_reject_empty_state_id() {
    let store = Handle::create();

    let result = store.register_state(snapshot(""));

    assert!(result.is_err(), "Should reject empty state ID");
    assert!(
        matches!(result.unwrap_err(), StoreError::InvalidOperation(_)),
        "Should be InvalidOperation error"
    );
}

#[test]
fn test_accept_nonempty_state_ids() {
    let store = Handle::create();

    // Various valid state IDs
    for id in &["a", "messages", "state-with-dashes", "state.with.dots", "123"] {
        store.register_state(snapshot(id)).unwrap();
    }
}

#[test]
fn test_reject_empty_branch_name() {
    let store = Handle::create();

    let result = store.create_branch("", None);

    assert!(result.is_err(), "Should reject empty branch name");
    assert!(
        matches!(result.unwrap_err(), StoreError::InvalidOperation(_)),
        "Should be InvalidOperation error"
    );
}

#[test]
fn test_accept_valid_branch_names() {
    let store = Handle::create();

    for name in &["feature", "experiment-1", "user/branch", "a"] {
        store.create_branch(name, None).unwrap();
    }
}

#[test]
fn test_reject_append_on_snapshot_strategy() {
    let store = Handle::create();

    store.register_state(snapshot("snap")).unwrap();

    let result = store.update_state("snap", StateOperation::Append(b"\"value\"".to_vec()));
    assert!(result.is_err(), "Append should be rejected on Snapshot strategy");
    assert!(matches!(result.unwrap_err(), StoreError::InvalidOperation(_)));
}

#[test]
fn test_reject_edit_on_snapshot_strategy() {
    let store = Handle::create();

    store.register_state(snapshot("snap")).unwrap();

    let result = store.update_state("snap",
        StateOperation::Edit {
            index: 0,
            new_value: b"\"x\"".to_vec(),
        },
    );
    assert!(result.is_err(), "Edit should be rejected on Snapshot strategy");
}

#[test]
fn test_reject_redact_on_snapshot_strategy() {
    let store = Handle::create();

    store.register_state(snapshot("snap")).unwrap();

    let result = store.update_state("snap",
        StateOperation::Redact { start: 0, end: 1 },
    );
    assert!(result.is_err(), "Redact should be rejected on Snapshot strategy");
}

#[test]
fn test_reject_append_on_tree_strategy() {
    let store = Handle::create();

    store.register_state(tree("tree", 50, 10)).unwrap();

    let result = store.update_state("tree", StateOperation::Append(b"\"value\"".to_vec()));
    assert!(result.is_err(), "Append should be rejected on Tree strategy");
}

#[test]
fn test_reject_tree_ops_on_appendlog_strategy() {
    let store = Handle::create();

    store.register_state(append_log("al", 50, 10)).unwrap();

    let result = store.tree_set(
        "al",
        "some/path",
        &TreeEntry {
            blob_hash: "a".repeat(64),
            size: 1,
            mode: 0o644,
        },
    );
    assert!(result.is_err(), "TreeSet should be rejected on AppendLog strategy");
}

#[test]
fn test_accept_append_on_appendlog_strategy() {
    let store = Handle::create();

    store.register_state(append_log("al", 50, 10)).unwrap();

    // Should succeed
    store.update_state("al", StateOperation::Append(b"\"hello\"".to_vec())).unwrap();

    let state = store.get_state("al").unwrap().unwrap();
    let items: Vec<serde_json::Value> = serde_json::from_slice(&state).unwrap();
    assert_eq!(items.len(), 1);
}

#[test]
fn test_set_works_on_any_strategy() {
    let store = Handle::create();

    // Set should work on Snapshot
    store.register_state(snapshot("snap")).unwrap();
    store.update_state("snap", StateOperation::SetValue(b"{\"key\":\"val\"}".to_vec())).unwrap();

    // Set should also work on AppendLog (for initialization)
    store.register_state(append_log("al", 50, 10)).unwrap();
    store.update_state("al", StateOperation::SetValue(b"[]".to_vec())).unwrap();
}

#[test]
fn test_reject_update_on_unregistered_state() {
    let store = Handle::create();

    let result = store.update_state("nonexistent",
        StateOperation::Append(b"\"value\"".to_vec()),
    );

    assert!(result.is_err(), "Should reject operations on unregistered state");
    assert!(
        matches!(result.unwrap_err(), StoreError::StateNotRegistered(_)),
        "Should be StateNotRegistered error"
    );
}

#[test]
fn test_reject_set_on_unregistered_state() {
    let store = Handle::create();

    let result = store.update_state("ghost", StateOperation::SetValue(b"data".to_vec()));
    assert!(result.is_err(), "Set should fail on unregistered state");
    assert!(matches!(result.unwrap_err(), StoreError::StateNotRegistered(_)));
}

#[test]
fn test_reject_tree_ops_on_unregistered_state() {
    let store = Handle::create();

    let result = store.tree_set(
        "ghost",
        "path",
        &TreeEntry {
            blob_hash: "a".repeat(64),
            size: 1,
            mode: 0o644,
        },
    );
    assert!(result.is_err(), "TreeSet should fail on unregistered state");
}

#[test]
fn test_reject_duplicate_state_registration() {
    let store = Handle::create();

    store.register_state(snapshot("data")).unwrap();

    let result = store.register_state(snapshot("data"));

    assert!(result.is_err(), "Should reject duplicate state registration");
    assert!(matches!(result.unwrap_err(), StoreError::StateExists(_)));
}

#[test]
fn test_cannot_delete_current_branch() {
    let store = Handle::create();

    store.create_branch("feature", None).unwrap();
    store.switch_branch("feature").unwrap();

    let result = store.delete_branch("feature");
    assert!(result.is_err(), "Should not be able to delete current branch");
}

#[test]
fn test_cannot_delete_main_branch() {
    let store = Handle::create();

    let result = store.delete_branch("main");
    assert!(result.is_err(), "Should not be able to delete main branch");
}

#[test]
fn test_switch_to_deleted_branch_fails() {
    let store = Handle::create();

    store.create_branch("temp", None).unwrap();
    store.delete_branch("temp").unwrap();

    let result = store.switch_branch("temp");
    assert!(result.is_err(), "Should not switch to deleted branch");
}

#[test]
fn test_appendlog_full_lifecycle() {
    let store = Handle::create();

    store.register_state(append_log("log", 3, 2)).unwrap();

    // Append several items (triggers delta + full snapshots)
    for i in 0..15 {
        store.update_state("log", StateOperation::Append(format!("\"item{}\"", i).into_bytes())).unwrap();
    }

    // Verify state
    let state = store.get_state("log").unwrap().unwrap();
    let items: Vec<serde_json::Value> = serde_json::from_slice(&state).unwrap();
    assert_eq!(items.len(), 15);

    // Edit last item
    store.update_state("log",
            StateOperation::Edit {
                index: 14,
                new_value: b"\"edited\"".to_vec(),
            },
        )
        .unwrap();

    let state = store.get_state("log").unwrap().unwrap();
    let items: Vec<serde_json::Value> = serde_json::from_slice(&state).unwrap();
    assert_eq!(items[14], "edited");

    // Redact 3 items from the middle
    store.update_state("log",
            StateOperation::Redact { start: 5, end: 8 },
        )
        .unwrap();

    let state = store.get_state("log").unwrap().unwrap();
    let items: Vec<serde_json::Value> = serde_json::from_slice(&state).unwrap();
    assert_eq!(items.len(), 12, "Should have 15 - 3 = 12 items after redact");

    // Compact and verify nothing changed
    let state_before = store.get_state("log").unwrap();
    store.compact_state("log").ok();
    let state_after = store.get_state("log").unwrap();
    assert_eq!(state_before, state_after, "Compaction should not change state");
}

#[test]
fn test_tree_full_lifecycle() {
    let store = Handle::create();

    store.register_state(tree("fs", 3, 2)).unwrap();

    // Set several files
    store.tree_set("fs", "src/main.rs", &entry("aaa", 100)).unwrap();
    store.tree_set("fs", "src/lib.rs", &entry("bbb", 200)).unwrap();
    store.tree_set("fs", "README.md", &entry("ccc", 50)).unwrap();
    store.tree_set("fs", "tests/test.rs", &entry("ddd", 150)).unwrap();

    // Verify list
    let files = store.tree_list("fs", None).unwrap();
    assert_eq!(files.len(), 4);

    // Verify prefix listing
    let src_files = store.tree_list("fs", Some("src/")).unwrap();
    assert_eq!(src_files.len(), 2);

    // Overwrite a file
    store.tree_set("fs", "src/main.rs", &entry("eee", 300)).unwrap();
    let got = store.tree_get("fs", "src/main.rs").unwrap().unwrap();
    assert_eq!(got.blob_hash, "eee");
    assert_eq!(got.size, 300);

    // Remove a file
    store.tree_remove("fs", "README.md").unwrap();
    let files = store.tree_list("fs", None).unwrap();
    assert_eq!(files.len(), 3);
    assert!(store.tree_get("fs", "README.md").unwrap().is_none());
}

#[test]
fn test_tree_set_and_get() {
    let store = Handle::create();
    store.register_state(tree("files", 5, 3)).unwrap();

    store.tree_set("files", "src/main.rs", &entry("abc123", 100)).unwrap();
    store.tree_set("files", "README.md", &entry("def456", 50)).unwrap();

    let e = store.tree_get("files", "src/main.rs").unwrap().unwrap();
    assert_eq!(e.blob_hash, "abc123");
    assert_eq!(e.size, 100);

    let e = store.tree_get("files", "README.md").unwrap().unwrap();
    assert_eq!(e.blob_hash, "def456");

    assert!(store.tree_get("files", "nonexistent").unwrap().is_none());
}

#[test]
fn test_tree_remove() {
    let store = Handle::create();
    store.register_state(tree("files", 5, 3)).unwrap();

    store.tree_set("files", "a.txt", &entry("aaa", 10)).unwrap();
    store.tree_set("files", "b.txt", &entry("bbb", 20)).unwrap();
    store.tree_remove("files", "a.txt").unwrap();

    assert!(store.tree_get("files", "a.txt").unwrap().is_none());
    assert!(store.tree_get("files", "b.txt").unwrap().is_some());
}

#[test]
fn test_tree_batch() {
    let store = Handle::create();
    store.register_state(tree("files", 5, 3)).unwrap();

    store.tree_set("files", "old.txt", &entry("old", 5)).unwrap();

    store
        .tree_batch(
            "files",
            &vec![
                TreeOp::SetEntry {
                    path: "new1.txt".to_string(),
                    entry: entry("n1", 10),
                },
                TreeOp::SetEntry {
                    path: "new2.txt".to_string(),
                    entry: entry("n2", 20),
                },
                TreeOp::Remove {
                    path: "old.txt".to_string(),
                },
            ],
        )
        .unwrap();

    assert!(store.tree_get("files", "old.txt").unwrap().is_none());
    assert!(store.tree_get("files", "new1.txt").unwrap().is_some());
    assert!(store.tree_get("files", "new2.txt").unwrap().is_some());
}

#[test]
fn test_tree_list_and_prefix() {
    let store = Handle::create();
    store.register_state(tree("files", 5, 3)).unwrap();

    store.tree_set("files", "src/main.rs", &entry("a", 1)).unwrap();
    store.tree_set("files", "src/lib.rs", &entry("b", 2)).unwrap();
    store.tree_set("files", "tests/test.rs", &entry("c", 3)).unwrap();
    store.tree_set("files", "README.md", &entry("d", 4)).unwrap();

    // List all
    let all = store.tree_list("files", None).unwrap();
    assert_eq!(all.len(), 4);

    // List with prefix
    let src = store.tree_list("files", Some("src/")).unwrap();
    assert_eq!(src.len(), 2);
    assert!(src.iter().all(|(k, _)| k.starts_with("src/")));

    let tests = store.tree_list("files", Some("tests/")).unwrap();
    assert_eq!(tests.len(), 1);

    // Prefix with no matches
    let none = store.tree_list("files", Some("nope/")).unwrap();
    assert!(none.is_empty());
}

#[test]
fn test_tree_diff() {
    let store = Handle::create();
    store.register_state(tree("files", 5, 3)).unwrap();

    store.tree_set("files", "a.txt", &entry("aaa", 10)).unwrap();
    let seq1 = store.current_branch().unwrap().head;

    store.tree_set("files", "b.txt", &entry("bbb", 20)).unwrap();
    store.tree_set("files", "a.txt", &entry("aaa_v2", 15)).unwrap();
    store.tree_remove("files", "a.txt").unwrap();
    let seq2 = store.current_branch().unwrap().head;

    let changes = store.tree_diff("files", seq1, seq2).unwrap();
    assert_eq!(changes.len(), 2); // a.txt removed, b.txt added

    // Verify change types
    let added: Vec<_> = changes
        .iter()
        .filter(|c| matches!(c, TreeChange::Added { .. }))
        .collect();
    let removed: Vec<_> = changes
        .iter()
        .filter(|c| matches!(c, TreeChange::Removed { .. }))
        .collect();
    assert_eq!(added.len(), 1);
    assert_eq!(removed.len(), 1);
}

#[test]
fn test_tree_auto_snapshot_and_correctness() {
    let store = Handle::create();

    // delta_snapshot_every=5, full_snapshot_every=3
    // So after 5 ops → delta snapshot, after 15 ops (3 deltas) → full snapshot
    store.register_state(tree("files", 5, 3)).unwrap();

    // Write 20 files to cross multiple snapshot thresholds
    for i in 0..20 {
        store
            .tree_set("files", &format!("file_{:03}.txt", i), &entry(&format!("hash_{}", i), i as u64 * 10)).unwrap();
    }

    // Verify all files are present after snapshotting
    let all = store.tree_list("files", None).unwrap();
    assert_eq!(all.len(), 20);

    for i in 0..20 {
        let e = store.tree_get("files", &format!("file_{:03}.txt", i)).unwrap().unwrap();
        assert_eq!(e.blob_hash, format!("hash_{}", i));
    }
}

#[test]
fn test_tree_persistence_across_reopen() {
    // Write some data
    let store = Handle::create();
    store.register_state(tree("workspace", 5, 3)).unwrap();

    store.tree_set("workspace", "src/main.rs", &entry("main_hash", 500)).unwrap();
    store.tree_set("workspace", "src/lib.rs", &entry("lib_hash", 300)).unwrap();
    store.tree_set("workspace", "Cargo.toml", &entry("cargo_hash", 100)).unwrap();

    store.sync();

    // Reopen and verify
    let store = store.reopen();

    let all = store.tree_list("workspace", None).unwrap();
    assert_eq!(all.len(), 3);

    let e = store.tree_get("workspace", "src/main.rs").unwrap().unwrap();
    assert_eq!(e.blob_hash, "main_hash");
    assert_eq!(e.size, 500);
}

#[test]
fn test_tree_branch_isolation() {
    let store = Handle::create();
    store.register_state(tree("files", 5, 3)).unwrap();

    // Write on main branch
    store.tree_set("files", "shared.txt", &entry("main_version", 10)).unwrap();

    // Create branch and modify
    store.create_branch("feature", Some("main")).unwrap();
    store.switch_branch("feature").unwrap();

    store.tree_set("files", "shared.txt", &entry("feature_version", 20)).unwrap();
    store.tree_set("files", "feature_only.txt", &entry("feat", 30)).unwrap();

    // Verify feature branch state
    let e = store.tree_get("files", "shared.txt").unwrap().unwrap();
    assert_eq!(e.blob_hash, "feature_version");
    assert!(store.tree_get("files", "feature_only.txt").unwrap().is_some());

    // Switch back to main — should see original state
    store.switch_branch("main").unwrap();

    let e = store.tree_get("files", "shared.txt").unwrap().unwrap();
    assert_eq!(e.blob_hash, "main_version");
    assert!(store.tree_get("files", "feature_only.txt").unwrap().is_none());
}

#[test]
fn test_tree_ops_rejected_on_non_tree_state() {
    let store = Handle::create();

    // Register an append_log state
    store.register_state(append_log("messages", 10, 5)).unwrap();

    // Tree operations should fail on append_log state
    let result = store.tree_set("messages", "file.txt", &entry("hash", 10));
    assert!(result.is_err());
    let err = result.unwrap_err().message();
    assert!(err.contains("Tree"), "Error should mention Tree strategy: {}", err);
}

#[test]
fn test_tree_diff_modifications() {
    let store = Handle::create();
    store.register_state(tree("files", 5, 3)).unwrap();

    store.tree_set("files", "a.txt", &entry("v1", 10)).unwrap();
    store.tree_set("files", "b.txt", &entry("v1", 20)).unwrap();
    let seq1 = store.current_branch().unwrap().head;

    // Modify a, leave b unchanged
    store.tree_set("files", "a.txt", &entry("v2", 15)).unwrap();
    let seq2 = store.current_branch().unwrap().head;

    let changes = store.tree_diff("files", seq1, seq2).unwrap();
    assert_eq!(changes.len(), 1);

    match &changes[0] {
        TreeChange::Modified { path, old_entry, new_entry } => {
            assert_eq!(path, "a.txt");
            assert_eq!(old_entry.blob_hash, "v1");
            assert_eq!(new_entry.blob_hash, "v2");
        }
        other => panic!("Expected Modified, got {:?}", other),
    }
}

#[test]
fn test_tree_path_validation() {
    let store = Handle::create();
    store.register_state(tree("files", 5, 3)).unwrap();

    // Valid paths should work
    store.tree_set("files", "src/main.rs", &entry("hash", 100)).unwrap();
    store.tree_set("files", "a.txt", &entry("hash", 10)).unwrap();
    store.tree_set("files", "deep/nested/path/file.rs", &entry("hash", 50)).unwrap();

    // Invalid paths should be rejected
    let cases = vec![
        ("", "empty path"),
        ("/absolute", "absolute path"),
        ("../escape", "parent traversal"),
        ("dir/../file", "embedded parent traversal"),
        ("./relative", "dot component"),
        ("dir/./file", "embedded dot component"),
        ("has\0null", "null byte"),
    ];

    for (path, desc) in cases {
        let result = store.tree_set("files", path, &entry("hash", 10));
        assert!(result.is_err(), "Expected error for {}: {}", desc, path);
    }

    // Remove should also validate
    assert!(store.tree_remove("files", "../escape").is_err());

    // Batch should also validate
    let result = store.tree_batch("files", &vec![
        TreeOp::SetEntry { path: "valid.txt".to_string(), entry: entry("h", 1) },
        TreeOp::SetEntry { path: "../bad".to_string(), entry: entry("h", 1) },
    ],);
    assert!(result.is_err());
    // The valid entry should NOT have been applied (batch is atomic, validation is upfront)
    assert!(store.tree_get("files", "valid.txt").unwrap().is_none());
}

#[test]
fn test_subscription_count_tracks_active_subs() {
    let store = Handle::create();

    assert_eq!(store.subscription_count(), 0);

    let h1 = store.subscribe(SubscriptionConfig::default());
    assert_eq!(store.subscription_count(), 1);

    let h2 = store.subscribe(SubscriptionConfig::default());
    assert_eq!(store.subscription_count(), 2);

    store.unsubscribe(h1.id);
    assert_eq!(store.subscription_count(), 1);

    store.unsubscribe(h2.id);
    assert_eq!(store.subscription_count(), 0);
}

#[test]
fn test_stats_total_size_includes_log_and_blobs() {
    let store = Handle::create();

    let stats_empty = store.stats();
    assert_eq!(stats_empty.record_count, 0);
    assert_eq!(stats_empty.blob_count, 0);

    // Add some records
    store.append(RecordInput::json("test", b"{\"data\":\"hello\"}".to_vec())).unwrap();

    let stats_with_record = store.stats();
    assert_eq!(stats_with_record.record_count, 1);
    assert!(
        stats_with_record.total_size_bytes > 0,
        "total_size_bytes should be > 0 after adding a record"
    );

    // Add a blob
    store.store_blob(b"blob content here", "text/plain");

    let stats_with_blob = store.stats();
    assert_eq!(stats_with_blob.blob_count, 1);
    assert!(
        stats_with_blob.total_size_bytes > stats_with_record.total_size_bytes,
        "total_size_bytes should increase after adding a blob (was {}, now {})",
        stats_with_record.total_size_bytes,
        stats_with_blob.total_size_bytes
    );
    assert!(
        stats_with_blob.blob_size_bytes > 0,
        "blob_size_bytes should be > 0"
    );

    // Verify total = log + blobs (the mutant changes + to *)
    // If * were used, total would be log_size * blob_size which is way bigger
    let log_size = stats_with_blob.total_size_bytes - stats_with_blob.blob_size_bytes;
    assert!(log_size > 0, "log component of total_size should be > 0");
    assert!(
        stats_with_blob.total_size_bytes < stats_with_blob.blob_size_bytes * 100,
        "total_size should be reasonable (not a product of two sizes)"
    );
}

#[test]
fn test_mark_subscription_caught_up() {
    let store = Handle::create();

    // Add some records first
    for i in 0..5 {
        store.append(RecordInput::json("event", format!("{{\"i\":{}}}", i).into_bytes())).unwrap();
    }

    // Subscribe with catch-up from sequence 1
    let handle = store.subscribe(SubscriptionConfig {
        from_sequence: Some(Sequence(1)),
        filter: SubscriptionFilter::records(),
        ..Default::default()
    });

    // Manually mark as caught up (skips replay, goes straight to live)
    store.mark_subscription_caught_up(handle.id).unwrap();

    // Drain the CaughtUp event
    let _ = handle.recv();

    // Now add a new record — subscriber should get it as a live event
    store.append(RecordInput::json("live_event", b"{\"live\":true}".to_vec())).unwrap();

    // Should receive the live event
    let event = handle.recv().unwrap();
    match event {
        StoreEvent::Record { record } => {
            assert_eq!(record.record_type, "live_event");
        }
        other => panic!("Expected Record event, got {:?}", other),
    }

    store.unsubscribe(handle.id);
}

#[test]
fn test_catch_up_subscription_replays_historical_records() {
    let store = Handle::create();

    // Add records
    for i in 0..5 {
        store.append(RecordInput::json("msg", format!("{{\"i\":{}}}", i).into_bytes())
            )
            .unwrap();
    }

    // Subscribe with catch-up from sequence 1
    let handle = store.subscribe(SubscriptionConfig {
        from_sequence: Some(Sequence(1)),
        filter: SubscriptionFilter::records(),
        ..Default::default()
    });

    store.catch_up_subscription(handle.id).unwrap();

    // Should receive historical records + CaughtUp marker
    let mut record_count = 0;
    let mut caught_up = false;
    loop {
        match handle.recv() {
            Ok(StoreEvent::Record { .. }) => record_count += 1,
            Ok(StoreEvent::CaughtUp) => {
                caught_up = true;
                break;
            }
            Ok(_) => {
                // Skip other event types (branch head, etc)
                continue;
            }
            Err(_) => break,
        }
    }

    assert!(caught_up, "Should receive CaughtUp event");
    assert!(
        record_count >= 5,
        "Should receive at least 5 historical records, got {}",
        record_count
    );

    store.unsubscribe(handle.id);
}

#[test]
fn test_catch_up_subscription_no_from_sequence_marks_caught_up() {
    let store = Handle::create();

    // Subscribe without from_sequence (live only)
    let handle = store.subscribe(SubscriptionConfig {
        from_sequence: None,
        filter: SubscriptionFilter::records(),
        ..Default::default()
    });

    // Catch up should immediately mark as caught up
    store.catch_up_subscription(handle.id).unwrap();

    let event = handle.recv().unwrap();
    assert!(
        matches!(event, StoreEvent::CaughtUp),
        "Should receive CaughtUp immediately when no from_sequence"
    );

    store.unsubscribe(handle.id);
}

#[test]
fn test_catch_up_with_state_snapshots() {
    let store = Handle::create();

    // Register state and add data
    store.register_state(append_log("messages", 100, 10)).unwrap();

    for i in 0..3 {
        store.update_state("messages", StateOperation::Append(format!("\"msg{}\"", i).into_bytes())).unwrap();
    }

    // Subscribe to everything with catch-up
    let handle = store.subscribe(SubscriptionConfig {
        from_sequence: Some(Sequence(1)),
        filter: SubscriptionFilter::states(vec!["messages".to_string()]),
        max_snapshot_bytes: 10 * 1024 * 1024,
        ..Default::default()
    });

    store.catch_up_subscription(handle.id).unwrap();

    // Should receive state snapshot + records + CaughtUp
    let mut got_snapshot = false;
    let mut got_caught_up = false;
    loop {
        match handle.recv() {
            Ok(StoreEvent::StateSnapshot { state_id, data, .. }) => {
                assert_eq!(state_id, "messages");
                // Snapshot at from_sequence may have partial state
                if let Ok(serde_json::Value::Array(arr)) = serde_json::from_slice(&data) {
                    assert!(arr.len() >= 1, "Snapshot should have at least 1 item");
                }
                got_snapshot = true;
            }
            Ok(StoreEvent::CaughtUp) => {
                got_caught_up = true;
                break;
            }
            Ok(_) => continue,
            Err(_) => break,
        }
    }

    assert!(got_snapshot, "Should receive state snapshot during catch-up");
    assert!(got_caught_up, "Should receive CaughtUp event");

    store.unsubscribe(handle.id);
}

#[test]
fn test_catch_up_respects_max_snapshot_bytes() {
    let store = Handle::create();

    store.register_state(append_log("big", 100, 10)).unwrap();

    // Add enough data to exceed a small snapshot limit
    for i in 0..50 {
        store.update_state("big", StateOperation::Append(
                    format!("\"item_{:04}_with_some_padding_data\"", i).into_bytes(),
                )).unwrap();
    }

    // Get current sequence so we can catch up from "now" (gets full current state)
    let current_seq = store.current_branch().unwrap().head;

    // Subscribe with a very small max_snapshot_bytes, catch up from current
    let handle = store.subscribe(SubscriptionConfig {
        from_sequence: Some(current_seq),
        filter: SubscriptionFilter::states(vec!["big".to_string()]),
        max_snapshot_bytes: 200, // Small — 50 items won't fit in 200 bytes
        ..Default::default()
    });

    store.catch_up_subscription(handle.id).unwrap();

    // Should receive a truncated snapshot
    let mut got_truncated_snapshot = false;
    loop {
        match handle.recv() {
            Ok(StoreEvent::StateSnapshot {
                truncated,
                total_length,
                from_index,
                ..
            }) => {
                if truncated {
                    got_truncated_snapshot = true;
                    assert_eq!(
                        total_length.unwrap(), 50,
                        "Total length should be 50"
                    );
                    assert!(
                        from_index.unwrap() > 0,
                        "from_index should be > 0 for truncated snapshot"
                    );
                }
            }
            Ok(StoreEvent::CaughtUp) => break,
            Ok(_) => continue,
            Err(_) => break,
        }
    }

    assert!(
        got_truncated_snapshot,
        "Should receive a truncated state snapshot"
    );

    store.unsubscribe(handle.id);
}

#[test]
fn test_live_subscription_receives_records() {
    let store = Handle::create();

    let handle = store.subscribe(SubscriptionConfig {
        from_sequence: None,
        filter: SubscriptionFilter::records(),
        ..Default::default()
    });

    // Must call catch_up first to activate the subscription
    store.catch_up_subscription(handle.id).unwrap();

    // Drain CaughtUp event
    let _ = handle.recv();

    // Add a record after subscribing
    store.append(RecordInput::json("test.event", b"{\"live\":true}".to_vec())).unwrap();

    let event = handle.recv().unwrap();
    match event {
        StoreEvent::Record { record } => {
            assert_eq!(record.record_type, "test.event");
        }
        other => panic!("Expected Record, got {:?}", other),
    }

    store.unsubscribe(handle.id);
}

#[test]
fn test_live_subscription_receives_branch_events() {
    let store = Handle::create();

    let handle = store.subscribe(SubscriptionConfig {
        from_sequence: None,
        filter: SubscriptionFilter::branches(),
        ..Default::default()
    });

    store.catch_up_subscription(handle.id).unwrap();
    let _ = handle.recv(); // drain CaughtUp

    store.create_branch("new-branch", None).unwrap();

    // Should receive branch created event
    let event = handle.recv().unwrap();
    match event {
        StoreEvent::BranchCreated { branch } => {
            assert_eq!(branch.name, "new-branch");
        }
        other => panic!("Expected BranchCreated, got {:?}", other),
    }

    store.unsubscribe(handle.id);
}

#[test]
fn test_unsubscribe_stops_events() {
    let store = Handle::create();

    let handle = store.subscribe(SubscriptionConfig {
        from_sequence: None,
        filter: SubscriptionFilter::records(),
        ..Default::default()
    });

    store.catch_up_subscription(handle.id).unwrap();
    let _ = handle.recv(); // drain CaughtUp

    // Verify subscription is active (count = 1)
    assert_eq!(store.subscription_count(), 1);

    store.unsubscribe(handle.id);

    // Verify subscription is removed (count = 0)
    assert_eq!(store.subscription_count(), 0);

    // Add records after unsubscribing
    for _ in 0..5 {
        store.append(RecordInput::json("post_unsub", b"{}".to_vec())).unwrap();
    }

    // Drain any events — should get Dropped or nothing, but NOT the post_unsub records
    let mut post_unsub_records = 0;
    while let Ok(event) = handle.recv() {
        if let StoreEvent::Record { record } = event {
            if record.record_type == "post_unsub" {
                post_unsub_records += 1;
            }
        }
    }
    assert_eq!(
        post_unsub_records, 0,
        "Should not receive records after unsubscribe"
    );
}

#[test]
fn test_scaling_50k_single_branch() {
    // Create and populate store
    let store = Handle::create();

    // Mix of record types
    let record_types = ["message", "tool_call", "tool_result", "state_update", "system"];

    for i in 0..RECORD_COUNT {
        let record_type = record_types[i % record_types.len()];
        let payload = format!("{{\"index\":{},\"data\":\"Record data for item {}\",\"timestamp\":{}}}", i, i, 1700000000 + i).into_bytes();
        store.append(RecordInput::json(record_type, payload.clone())).unwrap();
    }

    // Sync
    store.sync();

    // Stats
    let stats = store.stats();

    // Query by type
    let message_ids = store.get_records_by_type("message");
    assert_eq!(message_ids.len(), RECORD_COUNT / record_types.len());

    // Close and reopen (test rebuild)
    let store = store.reopen();

    // Verify data integrity
    for record_type in &record_types {
        let ids = store.get_records_by_type(record_type);
        assert_eq!(ids.len(), RECORD_COUNT / record_types.len());
    }

    // Random access
    for i in (0..RECORD_COUNT).step_by(50) {
        let id = RecordId((i + 1) as u64);
        let record = store.get_record(id).unwrap();
        assert!(record.is_some());
    }
}

#[test]
fn test_scaling_50k_multi_branch() {
    let store = Handle::create();

    let branch_count = 10;
    let records_per_branch = RECORD_COUNT / branch_count;

    // Create branches and populate
    for b in 0..branch_count {
        if b > 0 {
            let branch_name = format!("branch-{}", b);
            store.create_branch(&branch_name, None).unwrap();
            store.switch_branch(&branch_name).unwrap();
        }

        for i in 0..records_per_branch {
            let payload = format!("{{\"branch\":{},\"index\":{}}}", b, i).into_bytes();
            store.append(RecordInput::json("message", payload.clone())).unwrap();
        }
    }

    // List branches
    let branches = store.list_branches();
    assert_eq!(branches.len(), branch_count);

    // Switch between branches
    for i in 0..100 {
        let branch_name = if i % branch_count == 0 {
            "main".to_string()
        } else {
            format!("branch-{}", i % branch_count)
        };
        store.switch_branch(&branch_name).unwrap();
    }

    // Sync and reopen
    store.sync();
    let store = store.reopen();

    // Verify branch integrity
    for b in 0..branch_count {
        let branch_name = if b == 0 {
            "main".to_string()
        } else {
            format!("branch-{}", b)
        };
        store.switch_branch(&branch_name).unwrap();
        let branch = store.current_branch().unwrap();
        // Each branch should have records_per_branch records (cumulative from main)
        assert!(branch.head.0 >= records_per_branch as u64);
    }
}

#[test]
fn test_scaling_50k_with_states() {
    let store = Handle::create();

    // Register states
    store.register_state(append_log("messages", 500, 10)).unwrap();

    store.register_state(snapshot("counter")).unwrap();

    // Mixed workload: records + state updates
    let mut message_count = 0;
    for i in 0..RECORD_COUNT {
        // Every 10th operation is a state update
        if i % 10 == 0 {
            let msg = format!("{{\"id\":{},\"text\":\"Message {}\"}}", message_count, message_count).into_bytes();
            store.update_state("messages", StateOperation::Append(msg.clone())).unwrap();
            message_count += 1;
        }

        // Every 100th operation updates counter
        if i % 100 == 0 {
            let counter = format!("{}", i).into_bytes();
            store.update_state("counter", StateOperation::SetValue(counter.clone())).unwrap();
        }

        // Regular record
        let payload = format!("{{\"i\":{}}}", i).into_bytes();
        store.append(RecordInput::json("event", payload.clone())).unwrap();
    }

    // Get state
    let messages = store.get_state("messages").unwrap().unwrap();
    let messages: Vec<serde_json::Value> = serde_json::from_slice(&messages).unwrap();
    assert_eq!(messages.len(), message_count);

    // Get state length
    let len = store.get_state_len("messages").unwrap().unwrap();
    assert_eq!(len, message_count);

    // Get state slice
    let slice = store
        .get_state_slice("messages", message_count - 100, 100)
        .unwrap()
        .unwrap();
    let slice: Vec<serde_json::Value> = serde_json::from_slice(&slice).unwrap();
    assert_eq!(slice.len(), 100);

    // Sync and reopen
    store.sync();
    let store = store.reopen();

    // Verify state reconstruction
    let messages = store.get_state("messages").unwrap().unwrap();
    let messages: Vec<serde_json::Value> = serde_json::from_slice(&messages).unwrap();
    assert_eq!(messages.len(), message_count);

    // Historical state access
    let historical = store.get_state_at("counter", Sequence(25000)).unwrap();
    assert!(historical.is_some());
}

#[test]
fn test_scaling_subscriptions() {
    let store = Handle::create();

    // Register state for subscription testing
    store.register_state(append_log("log", 200, 5)).unwrap();

    // Populate store
    for i in 0..RECORD_COUNT {
        let record_type = if i % 3 == 0 { "important" } else { "normal" };
        let payload = format!("{{\"i\":{}}}", i).into_bytes();
        store.append(RecordInput::json(record_type, payload.clone())).unwrap();

        // Add to state every 100 records
        if i % 100 == 0 {
            store.update_state("log", StateOperation::Append(payload.clone())).unwrap();
        }
    }

    // Subscribe to records with catch-up from middle
    let config = SubscriptionConfig {
        filter: SubscriptionFilter::records(),
        from_sequence: Some(Sequence(25000)),
        buffer_size: 30000,
        ..Default::default()
    };
    let handle = store.subscribe(config);
    store.catch_up_subscription(handle.id).unwrap();

    // Count received events
    let mut record_count = 0;
    let mut caught_up = false;
    while let Ok(event) = handle.recv() {
        match event {
            StoreEvent::Record { .. } => record_count += 1,
            StoreEvent::CaughtUp => {
                caught_up = true;
                break;
            }
            _ => {}
        }
    }
    assert!(caught_up, "Should receive CaughtUp event");
    // Should receive ~25000 records (from 25000 to 50000)
    assert!(
        record_count >= 24000,
        "Expected ~25000 records, got {}",
        record_count
    );

    // Subscribe to filtered records
    let config = SubscriptionConfig {
        filter: SubscriptionFilter::record_types(vec!["important".to_string()]),
        from_sequence: Some(Sequence(1)),
        buffer_size: 20000,
        ..Default::default()
    };
    let handle2 = store.subscribe(config);
    store.catch_up_subscription(handle2.id).unwrap();

    let mut important_count = 0;
    while let Ok(event) = handle2.recv() {
        match event {
            StoreEvent::Record { record } => {
                assert_eq!(record.record_type, "important");
                important_count += 1;
            }
            StoreEvent::CaughtUp => break,
            _ => {}
        }
    }
    // Every 3rd record is "important"
    let expected = RECORD_COUNT / 3;
    assert!(
        important_count >= expected - 100,
        "Expected ~{} important records, got {}",
        expected,
        important_count
    );

    // Subscribe to state with catch-up
    let config = SubscriptionConfig {
        filter: SubscriptionFilter::states(vec!["log".to_string()]),
        from_sequence: Some(Sequence(1)),
        buffer_size: 1000,
        max_snapshot_bytes: 1024 * 1024, // 1MB
        ..Default::default()
    };
    let handle3 = store.subscribe(config);
    store.catch_up_subscription(handle3.id).unwrap();

    let mut got_snapshot = false;
    while let Ok(event) = handle3.recv() {
        match event {
            StoreEvent::StateSnapshot { state_id, .. } => {
                assert_eq!(state_id, "log");
                got_snapshot = true;
            }
            StoreEvent::CaughtUp => break,
            _ => {}
        }
    }
    assert!(got_snapshot, "Should receive state snapshot");

    // Live subscription test
    let config = SubscriptionConfig {
        filter: SubscriptionFilter::records(),
        from_sequence: None, // Live only
        ..Default::default()
    };
    let live_handle = store.subscribe(config);
    store.catch_up_subscription(live_handle.id).unwrap();

    // Drain CaughtUp
    let _ = live_handle.recv();

    // Append new records
    for i in 0..100 {
        let payload = format!("{{\"live\":{}}}", i).into_bytes();
        store.append(RecordInput::json("live", payload.clone())).unwrap();
    }

    // Receive live events
    let mut live_count = 0;
    while let Ok(event) = live_handle.recv() {
        if matches!(event, StoreEvent::Record { .. }) {
            live_count += 1;
        }
        if live_count >= 100 {
            break;
        }
    }
    assert_eq!(live_count, 100, "Should receive all 100 live records");

    // Cleanup
    store.unsubscribe(handle.id);
    store.unsubscribe(handle2.id);
    store.unsubscribe(handle3.id);
    store.unsubscribe(live_handle.id);
    assert_eq!(store.subscription_count(), 0);
}

#[test]
fn test_scaling_deep_branches() {
    let store = Handle::create();

    let depth = 20;
    let records_per_level = 2500;

    // Create deep hierarchy
    for level in 0..depth {
        // Add records at this level
        for i in 0..records_per_level {
            let payload = format!("{{\"level\":{},\"i\":{}}}", level, i).into_bytes();
            store.append(RecordInput::json("data", payload.clone())).unwrap();
        }

        // Create child branch (except at last level)
        if level < depth - 1 {
            let branch_name = format!("level-{}", level + 1);
            store.create_branch(&branch_name, None).unwrap();
            store.switch_branch(&branch_name).unwrap();
        }
    }

    // Navigate up and down the hierarchy
    for i in 0..100 {
        let level = i % depth;
        let branch_name = if level == 0 {
            "main".to_string()
        } else {
            format!("level-{}", level)
        };
        store.switch_branch(&branch_name).unwrap();
    }

    // Sync and reopen
    store.sync();
    let store = store.reopen();

    // Verify each branch has correct record count
    // In this test, each branch was created AFTER adding records at that level,
    // so each branch sees: records from all previous levels + its own records
    // Level 0 (main): 2500 records, then branch-1 created
    // Level 1: branch-1 has 2500 (inherited) + 2500 (own) = 5000, then branch-2 created
    // etc.
    // But actually, we add records THEN create branch, so each child starts at parent's head
    // which includes all parent records.
    // After 20 levels: main has records 1-2500, level-1 branches from 2500 and gets 2501-5000,
    // level-2 branches from 5000 and gets 5001-7500, etc.
    // The deepest branch (level-19) should have head = 20 * 2500 = 50000

    // Switch back to main and verify it only has first batch
    store.switch_branch("main").unwrap();
    let main_branch = store.current_branch().unwrap();
    assert_eq!(
        main_branch.head.0 as usize,
        records_per_level,
        "Main branch should only have first batch of records"
    );

    // The deepest branch should have all records (since it was created last)
    store.switch_branch(&format!("level-{}", depth - 1)).unwrap();
    let deepest = store.current_branch().unwrap();
    assert_eq!(
        deepest.head.0 as usize,
        depth * records_per_level,
        "Deepest branch should see all records"
    );
}

#[test]
fn test_scaling_many_states() {
    let store = Handle::create();

    let state_count = 100;
    let updates_per_state = 500;

    // Register many states
    for s in 0..state_count {
        store.register_state(StateRegistration {
                id: format!("state-{}", s),
                strategy: StateStrategy::AppendLog {
                    delta_snapshot_every: 50,
                    full_snapshot_every: 5,
                },
                initial_value: None,
            })
            .unwrap();
    }

    // Update states in round-robin
    for i in 0..(state_count * updates_per_state) {
        let state_id = format!("state-{}", i % state_count);
        let payload = format!("{{\"update\":{}}}", i / state_count).into_bytes();
        store.update_state(&state_id, StateOperation::Append(payload.clone())).unwrap();
    }

    // Verify all states exist by reading them
    for s in 0..state_count {
        let state_id = format!("state-{}", s);
        assert!(store.get_state(&state_id).unwrap().is_some());
    }

    // Read all states
    for s in 0..state_count {
        let state_id = format!("state-{}", s);
        let data = store.get_state(&state_id).unwrap().unwrap();
        let items: Vec<serde_json::Value> = serde_json::from_slice(&data).unwrap();
        assert_eq!(items.len(), updates_per_state);
    }

    // Sync and reopen
    store.sync();
    let store = store.reopen();

    // Verify state reconstruction
    for s in 0..state_count {
        let state_id = format!("state-{}", s);
        let data = store.get_state(&state_id).unwrap().unwrap();
        let items: Vec<serde_json::Value> = serde_json::from_slice(&data).unwrap();
        assert_eq!(items.len(), updates_per_state);
    }
}

#[test]
fn test_scaling_sync_performance() {
    let store = Handle::create();

    // Populate
    for i in 0..RECORD_COUNT {
        let payload = format!("{{\"i\":{}}}", i).into_bytes();
        store.append(RecordInput::json("data", payload.clone())).unwrap();
    }

    // Multiple syncs (should be fast after first)
    store.sync();

    store.sync();

    // Add more records
    for i in 0..1000 {
        let payload = format!("{{\"i\":{}}}", RECORD_COUNT + i).into_bytes();
        store.append(RecordInput::json("data", payload.clone())).unwrap();
    }

    store.sync();

    // Verify sync is O(1) not O(N) by timing
    // Add another batch
    for i in 0..1000 {
        let payload = format!("{{\"extra\":{}}}", i).into_bytes();
        store.append(RecordInput::json("data", payload.clone())).unwrap();
    }

    store.sync();

    assert_eq!(store.stats().record_count as usize, RECORD_COUNT + 2000);
}

#[test]
fn test_scaling_mixed_workload() {
    let store = Handle::create();

    // Setup: conversation state, tool states
    store.register_state(append_log("conversation", 100, 10)).unwrap();

    store.register_state(append_log("tool-results", 50, 5)).unwrap();

    let total_ops = 50000;

    for i in 0..total_ops {
        let op = i % 100;

        match op {
            // User message (5%)
            0..=4 => {
                let msg = format!("{{\"role\":\"user\",\"content\":\"User message {}\"}}", i).into_bytes();
                store.update_state("conversation", StateOperation::Append(msg.clone())).unwrap();
            }
            // Assistant message (5%)
            5..=9 => {
                let msg = format!("{{\"role\":\"assistant\",\"content\":\"Assistant response {}\"}}", i).into_bytes();
                store.update_state("conversation", StateOperation::Append(msg.clone())).unwrap();
            }
            // Tool call (15%)
            10..=24 => {
                let payload = format!("{{\"tool\":\"read_file\",\"args\":{{\"path\":\"/file_{}.txt\"}}}}", i).into_bytes();
                store.append(RecordInput::json("tool_call", payload.clone())).unwrap();
            }
            // Tool result (15%)
            25..=39 => {
                let result = format!("{{\"output\":\"Tool output for {}\"}}", i).into_bytes();
                store.update_state("tool-results", StateOperation::Append(result.clone())).unwrap();
            }
            // Inference log (20%)
            40..=59 => {
                let payload = format!("{{\"model\":\"model-3\",\"tokens\":1500,\"latency_ms\":800}}").into_bytes();
                store.append(RecordInput::json("inference", payload.clone())).unwrap();
            }
            // Event record (40%)
            _ => {
                let payload = format!("{{\"event\":\"framework_event\",\"data\":{}}}", i).into_bytes();
                store.append(RecordInput::json("event", payload.clone())).unwrap();
            }
        }

        // Periodic sync (every 5000 ops)
        if i > 0 && i % 5000 == 0 {
            store.sync();
                }
    }

    // Final sync
    store.sync();

    // Conversation length
    let conv_len = store.get_state_len("conversation").unwrap().unwrap();

    // Test subscription catch-up (simulating UI reconnection)
    let halfway = store.current_branch().unwrap().head.0 / 2;
    let config = SubscriptionConfig {
        filter: SubscriptionFilter::all(),
        from_sequence: Some(Sequence(halfway)),
        buffer_size: 30000,
        max_snapshot_bytes: 10 * 1024 * 1024,
        ..Default::default()
    };
    let handle = store.subscribe(config);
    store.catch_up_subscription(handle.id).unwrap();

    let mut event_count = 0;
    while let Ok(event) = handle.recv() {
        event_count += 1;
        if matches!(event, StoreEvent::CaughtUp) {
            break;
        }
    }

    // Reopen test
    let store = store.reopen();

    // Verify conversation intact
    let conv = store.get_state("conversation").unwrap().unwrap();
    let msgs: Vec<serde_json::Value> = serde_json::from_slice(&conv).unwrap();
    assert_eq!(msgs.len(), conv_len);
}


/// A sequence of numbers that looks random and is the same every time.
struct Numbers(u64);

impl Numbers {
    fn next(&mut self, below: u64) -> u64 {
        self.0 = self.0.wrapping_mul(6364136223846793005).wrapping_add(1442695040888963407);
        (self.0 >> 33) % below
    }

    fn between(&mut self, from: u64, to: u64) -> u64 {
        from + self.next(to - from)
    }

    fn json_string(&mut self) -> String {
        let mut s = String::from("\"");
        for _ in 0..self.between(1, 9) {
            s.push((b'a' + self.next(26) as u8) as char);
        }
        s.push('"');
        s
    }

    /// An append most of the time, else a change of the last item where there is one.
    fn item_op(&mut self, len: usize) -> Option<StateOperation> {
        match self.next(10) {
            8 if len > 0 => {
                Some(StateOperation::Edit { index: len - 1, new_value: self.json_string().into_bytes() })
            }
            9 if len > 0 => Some(StateOperation::Redact { start: len - 1, end: len }),
            8 | 9 => None,
            _ => Some(StateOperation::Append(self.json_string().into_bytes())),
        }
    }

    fn path(&mut self) -> String {
        let mut parts = vec![];
        for _ in 0..self.between(1, 4) {
            parts.push(((b'a' + self.next(4) as u8) as char).to_string());
        }
        parts.join("/")
    }
}

#[test]
fn prop_appendlog_reconstruction_matches_direct_apply() {
    for case in 0..100 {
        let mut n = Numbers(case);
        let store = Handle::create();
        store.register_state(append_log("test", n.between(2, 10), n.between(2, 6))).unwrap();
        let mut direct: Vec<u8> = vec![];
        let mut len = 0;
        for _ in 0..n.between(1, 60) {
            if let Some(op) = n.item_op(len) {
                store.update_state("test", op.clone()).unwrap();
                direct = chronicle::apply_operation(direct, op).unwrap();
                len = values(&direct).len();
            }
        }
        assert_eq!(store.get_state("test").unwrap().unwrap_or_default(), direct);
    }
}

#[test]
fn prop_compaction_preserves_state() {
    for case in 0..80 {
        let mut n = Numbers(1000 + case);
        let store = Handle::create();
        store.register_state(append_log("test", n.between(3, 8), n.between(2, 5))).unwrap();
        let mut len = 0;
        for _ in 0..n.between(5, 80) {
            if let Some(op) = n.item_op(len) {
                store.update_state("test", op).unwrap();
                len = values(&store.get_state("test").unwrap().unwrap()).len();
            }
        }
        let before = store.get_state("test").unwrap();
        let _ = store.compact_state("test");
        assert_eq!(store.get_state("test").unwrap(), before);
    }
}

#[test]
fn prop_branch_isolation() {
    for case in 0..50 {
        let mut n = Numbers(2000 + case);
        let store = Handle::create();
        store.register_state(append_log("data", 50, 50)).unwrap();
        let (parent, child, later) = (n.between(1, 15), n.between(1, 15), n.next(10));
        for _ in 0..parent {
            store.update_state("data", StateOperation::Append(n.json_string().into_bytes())).unwrap();
        }
        store.create_branch("child", None).unwrap();
        store.switch_branch("child").unwrap();
        for _ in 0..child {
            store.update_state("data", StateOperation::Append(n.json_string().into_bytes())).unwrap();
        }
        let child_state = store.get_state("data").unwrap().unwrap();
        store.switch_branch("main").unwrap();
        for _ in 0..later {
            store.update_state("data", StateOperation::Append(n.json_string().into_bytes())).unwrap();
        }
        let parent_state = store.get_state("data").unwrap().unwrap();
        assert_eq!(values(&parent_state).len() as u64, parent + later);
        store.switch_branch("child").unwrap();
        assert_eq!(store.get_state("data").unwrap().unwrap(), child_state);
        assert_eq!(values(&child_state).len() as u64, parent + child);
    }
}

#[test]
fn prop_historical_state_matches_snapshot() {
    for case in 0..60 {
        let mut n = Numbers(3000 + case);
        let store = Handle::create();
        store.register_state(append_log("test", n.between(3, 8), n.between(2, 5))).unwrap();
        let mut seen = vec![];
        for _ in 0..n.between(3, 30) {
            let op = StateOperation::Append(n.json_string().into_bytes());
            let record = store.update_state("test", op).unwrap();
            seen.push((record.sequence, store.get_state("test").unwrap().unwrap()));
        }
        for (at, expected) in &seen {
            assert_eq!(store.get_state_at("test", *at).unwrap().as_ref(), Some(expected));
        }
    }
}

#[test]
fn prop_tree_list_get_consistency() {
    for case in 0..60 {
        let mut n = Numbers(4000 + case);
        let store = Handle::create();
        store.register_state(tree("files", n.between(3, 10), n.between(2, 5))).unwrap();
        let mut expected = std::collections::BTreeMap::new();
        for _ in 0..n.between(1, 40) {
            let path = n.path();
            if n.next(4) < 3 {
                let e = entry(&format!("{:064x}", n.next(1 << 30)), n.next(100_000));
                store.tree_set("files", &path, &e).unwrap();
                expected.insert(path, e);
            } else {
                store.tree_remove("files", &path).unwrap();
                expected.remove(&path);
            }
        }
        let listed = store.tree_list("files", None).unwrap();
        assert_eq!(listed, expected.clone().into_iter().collect::<Vec<_>>());
        for (path, e) in &expected {
            assert_eq!(store.tree_get("files", path).unwrap().as_ref(), Some(e));
        }
    }
}

#[test]
fn prop_state_survives_reopen() {
    for case in 0..40 {
        let mut n = Numbers(5000 + case);
        let store = Handle::create();
        store.register_state(append_log("test", n.between(3, 8), n.between(2, 5))).unwrap();
        for _ in 0..n.between(3, 25) {
            store.update_state("test", StateOperation::Append(n.json_string().into_bytes())).unwrap();
        }
        store.sync();
        let before = store.get_state("test").unwrap();
        let store = store.reopen();
        assert_eq!(store.get_state("test").unwrap(), before);
    }
}

fn state_id(id: u8) -> String {
    format!("s{}", id % 4)
}

fn branch_name(seed: u8) -> String {
    match seed % 4 {
        0 => "main".to_string(),
        n => format!("b{}", n),
    }
}

fn tree_path(seed: u8) -> String {
    match seed % 6 {
        0 => "a/b".to_string(),
        1 => "c".to_string(),
        2 => "a/d/e".to_string(),
        3 => "f".to_string(),
        4 => "a/g".to_string(),
        _ => "h/i/j".to_string(),
    }
}

#[test]
fn any_sequence_of_operations_leaves_states_readable() {
    for case in 0..60 {
        let mut n = Numbers(6000 + case);
        let store = Handle::create();
        for _ in 0..50 {
            let id = state_id(n.next(256) as u8);
            let name = branch_name(n.next(256) as u8);
            let path = tree_path(n.next(256) as u8);
            let (a, b) = (n.next(12) as usize, n.next(12) as usize);
            let item = n.json_string().into_bytes();
            let _ = match n.next(14) {
                0 => store.register_state(append_log(&id, 1 + a as u64, 1 + b as u64)).is_ok(),
                1 => store.register_state(tree(&id, 5, 3)).is_ok(),
                2 | 3 => store.update_state(&id, StateOperation::Append(item)).is_ok(),
                4 => store.update_state(&id, StateOperation::Edit { index: a, new_value: item }).is_ok(),
                5 => {
                    store.update_state(&id, StateOperation::Redact { start: a.min(b), end: a.max(b) }).is_ok()
                }
                6 => store.tree_set(&id, &path, &entry("deadbeef", 42)).is_ok(),
                7 => store.tree_remove(&id, &path).is_ok(),
                8 => store.get_state(&id).is_ok(),
                9 => store.get_state_at(&id, Sequence(a as u64)).is_ok(),
                10 => store.create_branch(&name, None).is_ok(),
                11 => store.switch_branch(&name).is_ok(),
                12 => store.delete_branch(&name).is_ok(),
                _ => store.compact_state(&id).is_ok() && store.compact_all_states().is_ok(),
            };
        }
        for i in 0..4 {
            store.get_state(&state_id(i)).unwrap();
        }
    }
}

#[test]
fn shared_value_is_the_value() {
    let store = Handle::create();
    store.register_state(append_log("items", 3, 2)).unwrap();
    assert!(store.store.borrow_mut().get_state_arc("items").unwrap().is_none());
    for i in 0..7 {
        store.update_state("items", StateOperation::Append(format!("{}", i).into_bytes())).unwrap();
    }
    let shared = store.store.borrow_mut().get_state_arc("items").unwrap().unwrap();
    assert_eq!(*shared, store.get_state("items").unwrap().unwrap());
    assert_eq!(numbers(&shared), vec![0, 1, 2, 3, 4, 5, 6]);
}

#[test]
fn tails_agree_whichever_way_they_are_found() {
    let store = Handle::create();
    store.register_state(append_log("items", 3, 2)).unwrap();
    for i in 0..11 {
        store.update_state("items", StateOperation::Append(format!("{}", i).into_bytes())).unwrap();
        for n in 0..5 {
            let tail = store.get_state_tail("items", n).unwrap();
            let whole = store.store.borrow().get_state_tail_full_reconstruct("items", n).unwrap();
            assert_eq!(tail, whole);
        }
    }
}

#[test]
fn branch_made_in_the_past_sees_the_past() {
    let store = Handle::create();
    store.register_state(append_log("items", 3, 2)).unwrap();
    let mut sequences = vec![];
    for i in 0..9 {
        let record = store.update_state("items", StateOperation::Append(format!("{}", i).into_bytes())).unwrap();
        sequences.push(record.sequence);
    }
    store.create_branch_at("past", "main", sequences[4]).unwrap();
    store.switch_branch("past").unwrap();
    assert_eq!(numbers(&store.get_state("items").unwrap().unwrap()), vec![0, 1, 2, 3, 4]);
    assert_eq!(store.get_state_len("items").unwrap(), Some(5));
    store.update_state("items", StateOperation::Append(b"99".to_vec())).unwrap();
    assert_eq!(numbers(&store.get_state("items").unwrap().unwrap()), vec![0, 1, 2, 3, 4, 99]);
    store.switch_branch("main").unwrap();
    assert_eq!(store.get_state_len("items").unwrap(), Some(9));
}

#[test]
fn full_queue_drops_the_subscriber() {
    let store = Handle::create();
    let listener = store.subscribe(SubscriptionConfig {
        buffer_size: 3,
        filter: SubscriptionFilter::records(),
        ..Default::default()
    });
    store.catch_up_subscription(listener.id).unwrap();
    store.append(RecordInput::raw("a", vec![])).unwrap();
    store.append(RecordInput::raw("b", vec![])).unwrap();
    assert_eq!(store.subscription_count(), 1);
    store.append(RecordInput::raw("c", vec![])).unwrap();
    assert_eq!(store.subscription_count(), 0);
    assert!(listener.recv().is_err());
}

#[test]
fn records_are_found_by_what_caused_them() {
    let store = Handle::create();
    let cause = store.append(RecordInput::raw("cause", vec![])).unwrap();
    let effect = store.append(RecordInput::raw("effect", vec![]).with_caused_by(vec![cause.id])).unwrap();
    let link = store.append(RecordInput::raw("link", vec![]).with_linked_to(vec![cause.id])).unwrap();
    assert_eq!(store.store.borrow().get_effects(cause.id), vec![effect.id]);
    assert_eq!(store.store.borrow().get_links_to(cause.id), vec![link.id]);
    let found = store.store.borrow().query_range(Some(Sequence(2)), None, 10, true, None).unwrap();
    assert_eq!(found.iter().map(|r| r.id).collect::<Vec<_>>(), vec![link.id, effect.id]);
}

#[test]
fn a_refused_update_changes_nothing() {
    let store = Handle::create();
    store.register_state(append_log("items", 3, 2)).unwrap();
    store.update_state("items", StateOperation::Append(b"1".to_vec())).unwrap();
    let before = store.files().log;
    assert!(store.update_state("items", StateOperation::Edit { index: 4, new_value: b"2".to_vec() }).is_err());
    assert!(store.update_state("items", StateOperation::TreeRemove { path: "a".to_string() }).is_err());
    let refuse = |_: &StateUpdateRecord| Err(StoreError::Serialization("no".to_string()));
    let result = store.store.borrow_mut().update_state("items", StateOperation::Append(b"2".to_vec()), &refuse);
    assert!(matches!(result, Err(StoreError::Serialization(_))));
    assert_eq!(store.files().log, before);
    assert_eq!(store.get_state_len("items").unwrap(), Some(1));
}

#[test]
fn missing_branch_is_named() {
    let store = Handle::create();
    assert!(matches!(store.create_branch_at("x", "ghost", Sequence(0)), Err(StoreError::BranchNotFound(n)) if n == "ghost"));
    assert!(matches!(
        store.create_branch_at("x", "main", Sequence(7)),
        Err(StoreError::InvalidSequence(Sequence(7), Sequence(0)))
    ));
}

fn appended(n: i32) -> StateOperation {
    StateOperation::Append(n.to_string().into_bytes())
}

#[test]
fn setting_a_list_sets_its_items() {
    for delta in 1..5 {
        let store = Handle::create();
        store.register_state(append_log("items", delta, 3)).unwrap();
        store.update_state("items", appended(1)).unwrap();
        store.update_state("items", StateOperation::SetValue(b"[10, 20]".to_vec())).unwrap();
        assert_eq!(store.get_state_len("items").unwrap(), Some(2));
        assert_eq!(store.items("items"), vec![b"10".to_vec(), b"20".to_vec()]);
        let mut expected = vec![10, 20];
        for i in 30..40 {
            store.update_state("items", appended(i)).unwrap();
            expected.push(i);
            assert_eq!(numbers(&store.get_state("items").unwrap().unwrap()), expected);
            assert_eq!(store.get_state_len("items").unwrap(), Some(expected.len()));
            assert_eq!(store.items("items").len(), expected.len());
            let tail = store.get_state_tail("items", 3).unwrap().unwrap();
            assert_eq!(numbers(&tail), expected[expected.len() - 3..]);
        }
    }
}

#[test]
fn values_are_what_the_operations_make() {
    for case in 0..60 {
        let mut n = Numbers(7000 + case);
        let store = Handle::create();
        store.register_state(append_log("items", n.between(1, 5), n.between(1, 5))).unwrap();
        let mut direct: Vec<u8> = vec![];
        let mut past = vec![];
        let mut len = 0;
        for _ in 0..n.between(5, 40) {
            let op = match n.next(8) {
                0 => StateOperation::SetValue(format!("[ {}, {{ \"k\" : 7 }} ]", n.json_string()).into_bytes()),
                1 if len > 0 => StateOperation::Edit {
                    index: n.next(len as u64) as usize,
                    new_value: b"{ \"edited\" : true }".to_vec(),
                },
                2 if len > 0 => StateOperation::Redact { start: len / 2, end: len + 3 },
                _ => StateOperation::Append(format!(" {{ \"a\" : {} }}", n.json_string()).into_bytes()),
            };
            let record = store.update_state("items", op.clone()).unwrap();
            direct = chronicle::apply_operation(direct, op).unwrap();
            len = values(&direct).len();
            assert_eq!(values(&store.get_state("items").unwrap().unwrap()), values(&direct));
            assert_eq!(store.get_state_len("items").unwrap(), Some(len));
            past.push((record.sequence, values(&direct)));
        }
        for (at, expected) in &past {
            assert_eq!(&values(&store.get_state_at("items", *at).unwrap().unwrap()), expected);
        }
        let _ = store.compact_state("items");
        assert_eq!(values(&store.get_state("items").unwrap().unwrap()), values(&direct));
    }
}

#[test]
fn branch_made_behind_a_change_keeps_the_change() {
    for change in [
        StateOperation::Edit { index: 0, new_value: b"7".to_vec() },
        StateOperation::SetValue(b"[7, 1]".to_vec()),
    ] {
        let store = Handle::create();
        store.register_state(append_log("items", 3, 50)).unwrap();
        store.update_state("items", appended(0)).unwrap();
        store.update_state("items", appended(1)).unwrap();
        let at = store.update_state("items", change).unwrap().sequence;
        store.update_state("items", appended(2)).unwrap();
        store.create_branch_at("past", "main", at).unwrap();
        store.switch_branch("past").unwrap();
        let mut expected = vec![7, 1];
        assert_eq!(numbers(&store.get_state("items").unwrap().unwrap()), expected);
        for i in 50..60 {
            store.update_state("items", appended(i)).unwrap();
            expected.push(i);
            assert_eq!(numbers(&store.get_state("items").unwrap().unwrap()), expected);
            assert_eq!(store.get_state_len("items").unwrap(), Some(expected.len()));
        }
    }
}

#[test]
fn setting_a_tree_sets_its_files() {
    let store = Handle::create();
    store.register_state(tree("files", 2, 3)).unwrap();
    store.tree_set("files", "old", &entry("aa", 1)).unwrap();
    store.update_state("files", StateOperation::SetValue(b"{}".to_vec())).unwrap();
    let mut expected = vec![];
    for i in 0..9 {
        let path = format!("new{}", i);
        store.tree_set("files", &path, &entry("bb", i)).unwrap();
        expected.push(path);
        let listed = store.tree_list("files", None).unwrap();
        assert_eq!(listed.iter().map(|(p, _)| p.clone()).collect::<Vec<_>>(), expected);
    }
}

#[test]
fn records_of_a_type_are_found_however_rare() {
    let store = Handle::create();
    for _ in 0..300 {
        store.append(RecordInput::raw("noise", vec![])).unwrap();
    }
    let rare = store.append(RecordInput::raw("rare", vec![])).unwrap();
    let types = vec!["rare".to_string()];
    let found = store.store.borrow().query_range(None, None, 1, false, Some(&types)).unwrap();
    assert_eq!(found.iter().map(|r| r.id).collect::<Vec<_>>(), vec![rare.id]);
    let none = store.store.borrow().query_range(Some(Sequence(7)), Some(Sequence(3)), 5, false, None).unwrap();
    assert!(none.is_empty());
}

#[test]
fn catching_up_starts_at_the_first_record_of_the_branch() {
    let store = Handle::create();
    for _ in 0..4 {
        store.append(RecordInput::raw("a", vec![])).unwrap();
    }
    store.create_branch("side", None).unwrap();
    store.append(RecordInput::raw("main", vec![])).unwrap();
    store.switch_branch("side").unwrap();
    store.append(RecordInput::raw("side", vec![])).unwrap();
    for (from, expected) in [(3, vec!["side"]), (6, vec![]), (900, vec![])] {
        let listener = store.subscribe(SubscriptionConfig {
            from_sequence: Some(Sequence(from)),
            filter: SubscriptionFilter::records(),
            ..Default::default()
        });
        store.catch_up_subscription(listener.id).unwrap();
        let mut seen = vec![];
        while let Ok(event) = listener.recv() {
            if let StoreEvent::Record { record } = event {
                seen.push(record.record_type);
            }
        }
        assert_eq!(seen, expected);
    }
}

#[test]
fn tree_entries_may_be_lists() {
    let store = Handle::create();
    store.register_state(tree("files", 3, 3)).unwrap();
    let text = b"{ \"b\": [\"bb\", 7, 420], \"a\": {\"size\": 5, \"blob_hash\": \"aa\", \"mode\": 493} }";
    store.update_state("files", StateOperation::SetValue(text.to_vec())).unwrap();
    let listed = store.tree_list("files", None).unwrap();
    assert_eq!(listed.len(), 2);
    assert_eq!(listed[0].0, "a");
    assert_eq!(listed[0].1, TreeEntry { blob_hash: "aa".to_string(), size: 5, mode: 493 });
    assert_eq!(listed[1].0, "b");
    assert_eq!(listed[1].1, TreeEntry { blob_hash: "bb".to_string(), size: 7, mode: 420 });
    store.tree_remove("files", "a").unwrap();
    assert_eq!(store.tree_get("files", "b").unwrap().unwrap().size, 7);
    store.update_state("files", StateOperation::SetValue(b"{\"c\": [\"cc\", 1]}".to_vec())).unwrap();
    assert!(store.tree_list("files", None).is_err());
}

#[test]
fn refusal_tells_the_strategy() {
    let store = Handle::create();
    let fields = vec![
        ("a".to_string(), StateStrategy::Snapshot),
        ("b\"c".to_string(), StateStrategy::Delta { snapshot_every: 3 }),
    ];
    for (id, fields, text) in [
        ("none", vec![], "Struct { fields: {} }"),
        ("both", fields, "Struct { fields: {\"a\": Snapshot, \"b\\\"c\": Delta { snapshot_every: 3 }} }"),
    ] {
        let strategy = StateStrategy::Struct { fields };
        store.register_state(StateRegistration { id: id.to_string(), strategy, initial_value: None }).unwrap();
        let expected =
            format!("Append/Edit/Redact operations require AppendLog strategy, state '{}' uses {}", id, text);
        match store.update_state(id, appended(1)) {
            Err(StoreError::InvalidOperation(message)) => assert_eq!(message, expected),
            _ => panic!("an append needs a list"),
        }
    }
}

#[test]
fn cache_of_any_size_is_made() {
    for size in [0, 1, usize::MAX] {
        let mut store = chronicle::Store::create(StoreFiles::none(), size).unwrap();
        let one = store.store_blob(b"one", "text/plain");
        let two = store.store_blob(b"two", "text/plain");
        assert_eq!(store.get_blob(&one).unwrap().unwrap().content, b"one");
        assert_eq!(store.get_blob(&two).unwrap().unwrap().content, b"two");
        assert_eq!(store.get_blob(&one).unwrap().unwrap().content, b"one");
    }
}

#[test]
fn every_branch_has_what_its_updates_make() {
    for case in 0..40 {
        let mut n = Numbers(8000 + case);
        let store = Handle::create();
        store.register_state(append_log("items", n.between(1, 4), n.between(1, 4))).unwrap();
        let mut made: HashMap<String, Vec<i32>> = HashMap::new();
        let mut current = "main".to_string();
        made.insert(current.clone(), vec![]);
        for i in 0..60 {
            match n.next(8) {
                0 => {
                    let name = format!("b{}", i);
                    let head = store.current_branch().unwrap().head;
                    if n.next(2) == 0 {
                        store.create_branch_at(&name, &current, head).unwrap();
                    } else {
                        store.create_branch(&name, None).unwrap();
                    }
                    made.insert(name, made[&current].clone());
                }
                1 => {
                    let mut names: Vec<&String> = made.keys().collect();
                    names.sort();
                    let name = names[n.next(names.len() as u64) as usize].clone();
                    store.switch_branch(&name).unwrap();
                    current = name;
                }
                2 => {
                    store.compact_state("items").unwrap();
                }
                3 => {
                    store.update_state("items", StateOperation::SetValue(format!("[{}, 0]", i).into_bytes())).unwrap();
                    made.insert(current.clone(), vec![i, 0]);
                }
                _ => {
                    store.update_state("items", appended(i)).unwrap();
                    made.get_mut(&current).unwrap().push(i);
                }
            }
        }
        for (name, expected) in &made {
            store.switch_branch(name).unwrap();
            let value = store.get_state("items").unwrap();
            assert_eq!(&value.map(|v| numbers(&v)).unwrap_or_default(), expected);
            assert_eq!(store.get_state_len("items").unwrap().unwrap_or(0), expected.len());
        }
    }
}
