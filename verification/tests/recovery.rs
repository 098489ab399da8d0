use chronicle::blobs::codec::write_blob;
use chronicle::blobs::storage::BlobFile;
use chronicle::records::log::RecordIterator;
use chronicle::types::{Blob, BranchId, RecordId, StateUpdateRecord, Timestamp};
use chronicle::{
    Branch, BranchIndex, OpenMode, Record, RecordInput, RecordLog, Sequence, StateIndex, StateOperation,
    StateRegistration, StateStrategy, StoreConfig, StoreError, StoreFiles, WalEntry, WalEntryStatus, WalOperation,
    WriteAheadLog,
};
use std::cell::RefCell;
use std::collections::HashMap;

/// A store in memory. An update is recorded as its debug text, and found again by it.
struct Handle {
    store: RefCell<chronicle::Store>,
    updates: RefCell<HashMap<Vec<u8>, StateUpdateRecord>>,
}

impl Handle {
    fn create() -> Self {
        Handle {
            store: RefCell::new(chronicle::Store::create(StoreFiles::none(), 100).unwrap()),
            updates: RefCell::new(HashMap::new()),
        }
    }

    /// What the files of the store would hold.
    fn files(&self) -> StoreFiles {
        let store = self.store.borrow();
        let known = self.updates.borrow();
        let mut updates = vec![];
        let mut records = store.record_log().iter();
        while let Some(Ok((offset, record))) = records.next() {
            if let Some(update) = known.get(&record.payload) {
                updates.push((offset, update.clone()));
            }
        }
        let states = store.states().state_index();
        let branches = store.branches().branch_index();
        let blobs = store.blobs();
        StoreFiles {
            manifest: StoreFiles::none().manifest,
            log: store.record_log().bytes().to_vec(),
            meta: Some(store.record_log().meta()),
            blobs: blobs
                .list()
                .iter()
                .map(|h| BlobFile { shard: h.shard_prefix(), name: h.to_hex(), bytes: blobs.file(h).unwrap() })
                .collect(),
            states: StateIndex { heads: states.heads.to_vec(), strategies: states.strategies.to_vec() },
            branches: Some((
                BranchIndex { branches: branches.branches.to_vec(), next_id: branches.next_id },
                store.branches().current_id(),
            )),
            updates,
            wal: store.wal().entries().to_vec(),
        }
    }

    fn reopen(self) -> Self {
        let store = chronicle::Store::open(self.files(), 100).unwrap();
        Handle { store: RefCell::new(store), updates: self.updates }
    }

    fn encode(&self, update: &StateUpdateRecord) -> Result<Vec<u8>, StoreError> {
        let text = format!("{:?}", update).into_bytes();
        self.updates.borrow_mut().insert(text.clone(), update.clone());
        Ok(text)
    }

    fn append(&self, input: RecordInput) -> Result<Record, StoreError> {
        self.store.borrow_mut().append(input)
    }

    fn sync(&self) {
        self.store.borrow_mut().sync()
    }

    fn get_record(&self, id: RecordId) -> Result<Option<Record>, StoreError> {
        self.store.borrow().get_record(id)
    }

    fn store_blob(&self, content: &[u8], content_type: &str) -> chronicle::types::Hash {
        self.store.borrow_mut().store_blob(content, content_type)
    }

    fn get_blob(&self, hash: &chronicle::types::Hash) -> Result<Option<Blob>, StoreError> {
        self.store.borrow_mut().get_blob(hash)
    }

    fn register_state(&self, registration: StateRegistration) -> Result<(), StoreError> {
        self.store.borrow_mut().register_state(registration)
    }

    fn update_state(&self, id: &str, operation: StateOperation) -> Result<Record, StoreError> {
        self.store.borrow_mut().update_state(id, operation, &|u: &StateUpdateRecord| self.encode(u))
    }

    fn get_state(&self, id: &str) -> Result<Option<Vec<u8>>, StoreError> {
        self.store.borrow_mut().get_state(id)
    }

    fn get_state_at(&self, id: &str, at: Sequence) -> Result<Option<Vec<u8>>, StoreError> {
        self.store.borrow().get_state_at(id, at)
    }

    fn create_branch(&self, name: &str, from: Option<&str>) -> Result<Branch, StoreError> {
        self.store.borrow_mut().create_branch(name, from)
    }

    fn switch_branch(&self, name: &str) -> Result<Branch, StoreError> {
        self.store.borrow_mut().switch_branch(name)
    }

    fn list_branches(&self) -> Vec<Branch> {
        self.store.borrow().list_branches()
    }
}

fn append_log(id: &str, delta_snapshot_every: u64, full_snapshot_every: u64) -> StateRegistration {
    StateRegistration {
        id: id.to_string(),
        strategy: StateStrategy::AppendLog { delta_snapshot_every, full_snapshot_every },
        initial_value: None,
    }
}

fn values(state: &[u8]) -> Vec<serde_json::Value> {
    serde_json::from_slice(state).unwrap()
}

#[test]
fn test_wal_basic_persistence() {
    // Write some records and state
    let store = Handle::create();

    store.register_state(append_log("messages", 100, 10)).unwrap();

    for i in 0..5 {
        store.update_state("messages", StateOperation::Append(
                    format!("{{\"msg\":\"hello {}\"}}", i).into_bytes()
                )).unwrap();
    }

    // Explicit sync to ensure everything is durable
    store.sync();

    // Reopen and verify
    let store = store.reopen();
    let state = store.get_state("messages").unwrap().unwrap();
    let messages = values(&state);
    assert_eq!(messages.len(), 5, "Expected 5 messages after reopen");
}

#[test]
fn test_wal_records_survive_reopen() {
    let store = Handle::create();

    let record = store.append(RecordInput::json("test.event", b"{\"data\":\"important\"}".to_vec())).unwrap();
    let record_id = record.id;

    store.sync();

    let store = store.reopen();
    let record = store.get_record(record_id).unwrap();
    assert!(record.is_some(), "Record should survive reopen");
}

#[test]
fn test_wal_branches_survive_reopen() {
    let store = Handle::create();

    store.create_branch("experiment", None).unwrap();

    // Add state on the branch
    store.switch_branch("experiment").unwrap();
    store.register_state(append_log("data", 50, 5)).unwrap();
    store.update_state("data", StateOperation::Append(b"\"branch_value\"".to_vec())).unwrap();

    store.sync();

    let store = store.reopen();
    let branches = store.list_branches();
    let branch_names: Vec<&str> = branches.iter().map(|b| b.name.as_str()).collect();
    assert!(
        branch_names.contains(&"experiment"),
        "Branch 'experiment' should survive reopen"
    );
}

#[test]
fn test_wal_branch_state_isolation_after_reopen() {
    let store = Handle::create();

    store.register_state(append_log("items", 50, 5)).unwrap();

    // Write on main
    store.update_state("items", StateOperation::Append(b"\"main_item\"".to_vec())).unwrap();

    // Branch and write
    store.create_branch("fork", None).unwrap();
    store.switch_branch("fork").unwrap();
    store.update_state("items", StateOperation::Append(b"\"fork_item\"".to_vec())).unwrap();

    store.sync();

    // Reopen and verify isolation
    let store = store.reopen();

    store.switch_branch("main").unwrap();
    let main_state = store.get_state("items").unwrap().unwrap();
    let main_items = values(&main_state);
    assert_eq!(main_items.len(), 1, "Main should have 1 item");

    store.switch_branch("fork").unwrap();
    let fork_state = store.get_state("items").unwrap().unwrap();
    let fork_items = values(&fork_state);
    assert_eq!(fork_items.len(), 2, "Fork should have 2 items (inherited + own)");
}

#[test]
fn test_wal_blob_idempotent() {
    let store = Handle::create();
    let hash = store.store_blob(b"hello world", "text/plain");
    store.sync();

    let store = store.reopen();
    let blob = store.get_blob(&hash).unwrap();
    assert!(blob.is_some(), "Blob should survive reopen");
    assert_eq!(blob.unwrap().content, b"hello world");

    // Store same content again — should return same hash
    let hash2 = store.store_blob(b"hello world", "text/plain");
    assert_eq!(hash, hash2, "Content-addressed blob should be idempotent");
}

#[test]
fn test_wal_historical_state_after_reopen() {
    let mut sequences = Vec::new();
    let store = Handle::create();

    store.register_state(append_log("log", 100, 10)).unwrap();

    for i in 0..5 {
        let rec = store.update_state("log", StateOperation::Append(format!("\"item{}\"", i).into_bytes())).unwrap();
        sequences.push(rec.sequence);
    }

    store.sync();

    let store = store.reopen();

    // Current state should have 5 items
    let state = store.get_state("log").unwrap().unwrap();
    let items = values(&state);
    assert_eq!(items.len(), 5);

    // Historical state at sequence[2] should have 3 items
    let historical = store.get_state_at("log", sequences[2]).unwrap().unwrap();
    let hist_items = values(&historical);
    assert_eq!(hist_items.len(), 3, "Historical state should have 3 items");
}

#[test]
fn test_wal_stress_reopen_consistency() {
    let store = Handle::create();

    store.register_state(append_log("counter", 10, 5)).unwrap();

    // 200 operations across 3 branches
    for i in 0..200 {
        store.update_state("counter", StateOperation::Append(format!("\"op{}\"", i).into_bytes())).unwrap();

        if i == 50 {
            store.create_branch("b1", None).unwrap();
            store.switch_branch("b1").unwrap();
        }
        if i == 100 {
            store.create_branch("b2", Some("main")).unwrap();
            store.switch_branch("b2").unwrap();
        }
        if i == 150 {
            store.switch_branch("main").unwrap();
        }
    }

    store.sync();

    let store = store.reopen();

    // Verify each branch has consistent, readable state after reopen
    store.switch_branch("main").unwrap();
    let main_state = store.get_state("counter").unwrap().unwrap();
    let main_items = values(&main_state);
    // main: ops 0..=50 (51 items), then ops 150..=199 (50 items) = 101
    // But the update at i=50 runs before the branch check, and switching at i=150
    // runs after the update — so main gets ops 0..=50 and 150..=199 = 100 items
    assert_eq!(main_items.len(), 100, "Main should have 100 items");

    // b1 inherits main's state at branch point + its own writes
    store.switch_branch("b1").unwrap();
    let b1_state = store.get_state("counter").unwrap().unwrap();
    let b1_items = values(&b1_state);
    assert!(b1_items.len() > 50, "b1 should have items from main + own writes");

    // All branches should be present
    let branches = store.list_branches();
    assert_eq!(branches.len(), 3, "Should have main, b1, b2");
}

#[test]
fn test_wal_clean_after_sync() {
    let store = Handle::create();

    store.register_state(append_log("data", 50, 5)).unwrap();

    for i in 0..10 {
        store.update_state("data", StateOperation::Append(format!("\"v{}\"", i).into_bytes())).unwrap();
    }

    store.sync();

    let wal = WriteAheadLog::open(store.files().wal);
    let pending = wal.get_pending_entries();
    assert!(
        pending.is_empty(),
        "WAL should have no pending entries after sync+close, found {}",
        pending.len()
    );
}

fn open_log(bytes: &[u8]) -> Result<RecordLog, StoreError> {
    RecordLog::open(bytes.to_vec(), None)
}

fn count(mut it: RecordIterator) -> usize {
    let mut n = 0;
    while it.next().is_some() {
        n += 1;
    }
    n
}

#[test]
fn test_corrupted_record_log_invalid_magic() {
    // Should open (the scan for the largest id sees bad magic and starts fresh)
    let log = open_log(b"BADMAGIC").unwrap();
    // But reading should fail
    let result = log.read_at(0);
    assert!(result.is_err());
}

#[test]
fn test_corrupted_record_log_max_id() {
    // Valid magic + version + flags, then ID = u64::MAX, rest zeros
    let mut data = vec![0u8; 95];
    data[0..4].copy_from_slice(b"REC\0"); // magic
    data[4] = 2; // version (LOG_VERSION)
    data[5] = 0; // flags
    // ID at offset 6 = u64::MAX
    data[6..14].copy_from_slice(&u64::MAX.to_le_bytes());
    // rest is zeros (invalid but shouldn't crash)

    let result = open_log(&data);
    assert!(result.is_ok(), "Opening log with max ID should not panic");
}

#[test]
fn test_corrupted_record_log_huge_payload_length() {
    // Build a record with valid header but payload_len = 0xFFFFFFFF
    let mut data = Vec::new();
    data.extend_from_slice(b"REC\0"); // magic
    data.push(2); // version
    data.push(0); // flags
    data.extend_from_slice(&1u64.to_le_bytes()); // ID
    data.extend_from_slice(&1u64.to_le_bytes()); // sequence
    data.extend_from_slice(&1u64.to_le_bytes()); // branch
    data.extend_from_slice(&0i64.to_le_bytes()); // timestamp
    data.extend_from_slice(&0u16.to_le_bytes()); // type_len = 0
    data.push(0); // encoding
    data.extend_from_slice(&u32::MAX.to_le_bytes()); // payload_len = 4GB
    // No actual payload data follows

    let result = open_log(&data);
    assert!(result.is_ok(), "Opening log with huge payload length should not OOM");

    // Reading the record should fail with PayloadTooLarge
    let log = result.unwrap();
    assert!(matches!(log.read_at(0), Err(StoreError::PayloadTooLarge { .. })));
}

#[test]
fn test_corrupted_record_log_wrong_version() {
    let mut data = Vec::new();
    data.extend_from_slice(b"REC\0"); // magic
    data.push(99); // invalid version
    data.push(0); // flags
    data.extend_from_slice(&1u64.to_le_bytes()); // ID

    let result = open_log(&data);
    assert!(result.is_ok());

    // Reading should fail with invalid format
    let log = result.unwrap();
    let read_result = log.read_at(0);
    assert!(read_result.is_err());
}

#[test]
fn test_corrupted_branch_index_huge_length() {
    // Write magic + version + current_branch_id + length = u64::MAX
    let mut data = Vec::new();
    data.extend_from_slice(b"BRI\0"); // magic
    data.push(1); // version
    data.extend_from_slice(&1u64.to_le_bytes()); // current branch ID
    data.extend_from_slice(&u64::MAX.to_le_bytes()); // length = massive

    let result = chronicle::format::branch_index::read_branch_file(&data);
    assert!(result.is_err(), "Opening store with corrupted branches.bin should error, not OOM");
}

#[test]
fn test_corrupted_state_index_huge_length() {
    // Write magic + version + length = u64::MAX
    let mut data = Vec::new();
    data.extend_from_slice(b"STI\0"); // magic
    data.push(2); // version
    data.extend_from_slice(&u64::MAX.to_le_bytes()); // length = massive

    let result = chronicle::format::state_index::read_state_file(&data);
    assert!(result.is_err(), "Opening store with corrupted state.bin should error, not OOM");
}

fn open_with_manifest(manifest: &[u8]) -> Result<chronicle::Store, StoreError> {
    let mut files = Handle::create().files();
    files.manifest = manifest.to_vec();
    chronicle::Store::open(files, 10)
}

#[test]
fn test_corrupted_manifest_wrong_version() {
    let result = open_with_manifest(b"RST\0\xFF");
    assert!(result.is_err(), "Wrong manifest version should error");
}

#[test]
fn test_corrupted_manifest_bad_magic() {
    let result = open_with_manifest(b"BAD!");
    assert!(result.is_err(), "Bad manifest magic should error");
}

#[test]
fn test_open_nonexistent_store() {
    // There is no manifest to read
    let mut files = StoreFiles::none();
    files.manifest = vec![];
    let result = chronicle::Store::open(files, 100);

    assert!(result.is_err());
}

#[test]
fn test_truncated_record_log() {
    // Just magic + version, then truncated (no flags byte, no ID)
    match open_log(b"REC\0\x02") {
        Ok(log) => {
            // Opened fine (scan broke early). Reading should still fail.
            let result = log.read_at(0);
            assert!(result.is_err(), "Reading truncated record should error");
        }
        Err(_) => {
            // Also acceptable - truncated file caused IO error during scan
        }
    }
}

#[test]
fn test_empty_record_log() {
    let log = open_log(b"").unwrap();
    assert_eq!(count(log.iter()), 0, "Empty log should iterate with no items");
}

#[test]
fn manifest_golden_bytes() {
    // Expected bytes: "RST\0" + version byte (0x02)
    let expected: [u8; 5] = [0x52, 0x53, 0x54, 0x00, 0x02];

    assert_eq!(chronicle::format::manifest::MAGIC, expected[0..4]);
    assert_eq!(chronicle::format::manifest::VERSION, expected[4]);
}

#[test]
fn manifest_roundtrip_on_disk() {
    let bytes = Handle::create().files().manifest;
    assert_eq!(bytes[0..4], chronicle::format::manifest::MAGIC);
    assert_eq!(bytes[4], chronicle::format::manifest::VERSION);
    assert_eq!(bytes.len(), 5, "manifest should be exactly 5 bytes");
}

#[test]
fn record_log_golden_header_bytes() {
    // Expected header prefix: "REC\0" + version (0x02)
    let expected_prefix: [u8; 5] = [0x52, 0x45, 0x43, 0x00, 0x02];

    assert_eq!(chronicle::format::record_log::MAGIC, expected_prefix[0..4]);
    assert_eq!(chronicle::format::record_log::VERSION, expected_prefix[4]);
}

#[test]
fn record_log_structural_layout() {
    let store = Handle::create();
    let record = store.append(RecordInput::raw("x", vec![])).unwrap();
    store.sync();

    let bytes = store.files().log;
    assert!(bytes.len() >= 38, "record log should have at least a header");

    // Magic at offset 0
    assert_eq!(bytes[0..4], chronicle::format::record_log::MAGIC);
    // Version at offset 4
    assert_eq!(bytes[4], chronicle::format::record_log::VERSION);
    // Flags at offset 5 (reserved 0x00)
    assert_eq!(bytes[5], 0x00);
    // Record ID at offset 6 (u64 LE) - should be 1 for the first record
    let id = u64::from_le_bytes(bytes[6..14].try_into().unwrap());
    assert_eq!(id, 1, "first record should have ID 1");
    assert_eq!(id, record.id.0, "on-disk ID matches returned record");
    // Sequence at offset 14 - should also be 1 for the first record on main
    let seq = u64::from_le_bytes(bytes[14..22].try_into().unwrap());
    assert_eq!(seq, 1);
}

#[test]
fn record_log_max_payload_size_unchanged() {
    assert_eq!(chronicle::format::record_log::MAX_PAYLOAD_SIZE, 256 * 1024 * 1024);
}

#[test]
fn blob_golden_header_bytes() {
    let expected_prefix: [u8; 5] = [0x42, 0x4C, 0x42, 0x00, 0x01];

    assert_eq!(chronicle::format::blob::MAGIC, expected_prefix[0..4]);
    assert_eq!(chronicle::format::blob::VERSION, expected_prefix[4]);
}

#[test]
fn blob_structural_layout() {
    let store = Handle::create();
    store.store_blob(b"hi", "text/plain");
    let bytes = &store.files().blobs[0].bytes;

    // Magic at offset 0
    assert_eq!(bytes[0..4], chronicle::format::blob::MAGIC);
    // Version at offset 4
    assert_eq!(bytes[4], chronicle::format::blob::VERSION);
    // Content-type length at offset 5 (u16 LE) - "text/plain" = 10 bytes
    let ct_len = u16::from_le_bytes(bytes[5..7].try_into().unwrap());
    assert_eq!(ct_len, 10);
    // Content-type at offset 7
    assert_eq!(&bytes[7..17], b"text/plain");
    // Content length at offset 17 (u64 LE) - "hi" = 2 bytes
    let content_len = u64::from_le_bytes(bytes[17..25].try_into().unwrap());
    assert_eq!(content_len, 2);
    // Content at offset 25
    assert_eq!(&bytes[25..27], b"hi");
    // CRC32 at offset 27 (4 bytes)
    let crc = u32::from_le_bytes(bytes[27..31].try_into().unwrap());
    assert_eq!(crc, crc32fast::hash(b"hi"));
}

#[test]
fn blob_max_size_unchanged() {
    assert_eq!(chronicle::format::blob::MAX_SIZE, 1024 * 1024 * 1024);
}

#[test]
fn state_index_golden_header() {
    let expected_prefix: [u8; 5] = [0x53, 0x54, 0x49, 0x00, 0x03];
    assert_eq!(chronicle::format::state_index::MAGIC, expected_prefix[0..4]);
    assert_eq!(chronicle::format::state_index::VERSION, expected_prefix[4]);
    assert_eq!(chronicle::format::state_index::MIN_READABLE_VERSION, 2);
}

#[test]
fn state_index_structural_envelope() {
    let bytes = chronicle::format::state_index::write_state_file(b"encoded index");

    // Magic + version
    assert_eq!(bytes[0..4], chronicle::format::state_index::MAGIC);
    assert_eq!(bytes[4], chronicle::format::state_index::VERSION);
    // Length (u64 LE) at offset 5
    let len = u64::from_le_bytes(bytes[5..13].try_into().unwrap());
    // Total file size should be 13 (header) + len (content) + 4 (CRC32)
    assert_eq!(bytes.len() as u64, 13 + len + 4);
    // CRC32 at the end
    let body = &bytes[13..13 + len as usize];
    let stored_crc = u32::from_le_bytes(bytes[bytes.len() - 4..].try_into().unwrap());
    assert_eq!(stored_crc, crc32fast::hash(body));
}

#[test]
fn branch_index_golden_header() {
    let expected_prefix: [u8; 5] = [0x42, 0x52, 0x49, 0x00, 0x02];
    assert_eq!(chronicle::format::branch_index::MAGIC, expected_prefix[0..4]);
    assert_eq!(chronicle::format::branch_index::VERSION, expected_prefix[4]);
    assert_eq!(chronicle::format::branch_index::MIN_READABLE_VERSION, 1);
}

#[test]
fn branch_index_structural_envelope() {
    let bytes = chronicle::format::branch_index::write_branch_file(1, b"encoded index");

    // Magic + version
    assert_eq!(bytes[0..4], chronicle::format::branch_index::MAGIC);
    assert_eq!(bytes[4], chronicle::format::branch_index::VERSION);
    // Current branch ID (u64 LE) at offset 5
    let current_id = u64::from_le_bytes(bytes[5..13].try_into().unwrap());
    assert_eq!(current_id, 1);
    // Length (u64 LE) at offset 13
    let len = u64::from_le_bytes(bytes[13..21].try_into().unwrap());
    // Total: 21 (header) + len + 4 (CRC32)
    assert_eq!(bytes.len() as u64, 21 + len + 4);
    // CRC32 verification
    let body = &bytes[21..21 + len as usize];
    let stored_crc = u32::from_le_bytes(bytes[bytes.len() - 4..].try_into().unwrap());
    assert_eq!(stored_crc, crc32fast::hash(body));
}

#[test]
fn wal_golden_header_bytes() {
    let expected_prefix: [u8; 5] = [0x57, 0x41, 0x4C, 0x00, 0x01];
    assert_eq!(chronicle::format::wal::MAGIC, expected_prefix[0..4]);
    assert_eq!(chronicle::format::wal::VERSION, expected_prefix[4]);
}

#[test]
fn records_meta_golden_header() {
    let expected_prefix: [u8; 5] = [0x52, 0x4D, 0x54, 0x00, 0x01];
    assert_eq!(chronicle::format::records_meta::MAGIC, expected_prefix[0..4]);
    assert_eq!(chronicle::format::records_meta::VERSION, expected_prefix[4]);
}

#[test]
fn records_meta_structural_layout() {
    let store = Handle::create();
    store.append(RecordInput::raw("test", b"hello".to_vec())).unwrap();
    store.sync();

    let files = store.files();
    let bytes = files.meta.unwrap();

    // Total size is exactly 25 bytes: 4 (magic) + 1 (version) + 8 (max_id) + 8 (log_size) + 4 (crc)
    assert_eq!(bytes.len(), 25);

    // Magic + version
    assert_eq!(bytes[0..4], chronicle::format::records_meta::MAGIC);
    assert_eq!(bytes[4], chronicle::format::records_meta::VERSION);

    // max_id at offset 5 (u64 LE) - should be 1 (one record written)
    let max_id = u64::from_le_bytes(bytes[5..13].try_into().unwrap());
    assert_eq!(max_id, 1);

    // log_size at offset 13 (u64 LE) - must match the actual file size
    let meta_log_size = u64::from_le_bytes(bytes[13..21].try_into().unwrap());
    assert_eq!(meta_log_size, files.log.len() as u64);

    // CRC32 at offset 21 (4 bytes) - over the first 21 bytes
    let stored_crc = u32::from_le_bytes(bytes[21..25].try_into().unwrap());
    let expected_crc = crc32fast::hash(&bytes[0..21]);
    assert_eq!(stored_crc, expected_crc);
}

#[test]
fn current_versions_matrix_is_complete() {
    // Every magic in the matrix should be distinct
    let mut seen: Vec<[u8; 4]> = Vec::new();
    for (_, magic, _) in chronicle::format::CURRENT_VERSIONS {
        assert!(!seen.contains(&magic));
        seen.push(magic);
    }
    // We should have seven entries (manifest, record_log, blob, wal, state_index,
    // branch_index, records_meta)
    assert_eq!(chronicle::format::CURRENT_VERSIONS.len(), 7);
}

#[test]
fn format_matrix_matches_current_versions() {
    let store = Handle::create();
    store.append(RecordInput::json("test", b"{\"data\":1}".to_vec())).unwrap();
    store.store_blob(b"blob content", "text/plain");
    let files = store.files();

    for (name, expected_magic, expected_version) in chronicle::format::CURRENT_VERSIONS {
        let bytes = match name {
            "manifest" => files.manifest.clone(),
            "record_log" => files.log.clone(),
            "wal" => chronicle::wal::frames::write_header(),
            "state_index" => chronicle::format::state_index::write_state_file(b""),
            "branch_index" => chronicle::format::branch_index::write_branch_file(1, b""),
            "records_meta" => files.meta.clone().unwrap(),
            "blob" => files.blobs[0].bytes.clone(),
            other => panic!("unexpected component name: {}", other),
        };
        assert_eq!(bytes[0..4], expected_magic, "{}: wrong magic bytes", name);
        assert_eq!(bytes[4], expected_version, "{}: wrong version byte", name);
    }
}

fn pending(seq: u64, operation: WalOperation) -> WalEntry {
    WalEntry { seq, status: WalEntryStatus::Pending, operation, timestamp: 0 }
}

fn append_entry(record_type: &str, log_fence: u64) -> WalOperation {
    WalOperation::AppendRecord {
        record_type: record_type.to_string(),
        payload: b"1".to_vec(),
        encoding: 2,
        caused_by: vec![],
        linked_to: vec![],
        branch_id: 1,
        log_fence,
    }
}

#[test]
fn lost_append_is_made_up_for() {
    let store = Handle::create();
    store.append(RecordInput::raw("first", vec![])).unwrap();
    let mut files = store.files();
    let fence = files.log.len() as u64;
    files.wal.push(pending(100, append_entry("second", fence)));
    let store = chronicle::Store::open(files, 10).unwrap();
    let ids = store.get_records_by_type("second");
    assert_eq!(ids.len(), 1);
    assert_eq!(store.get_record(ids[0]).unwrap().unwrap().sequence, Sequence(2));
    assert_eq!(store.current_branch().unwrap().head, Sequence(2));
    assert!(!store.wal().has_pending());
    assert_eq!(store.wal().next_seq(), 1);
}

#[test]
fn append_that_was_written_is_not_repeated() {
    let store = Handle::create();
    store.append(RecordInput::raw("first", vec![])).unwrap();
    let mut files = store.files();
    files.wal.push(pending(100, append_entry("first", 0)));
    let store = chronicle::Store::open(files, 10).unwrap();
    assert_eq!(store.get_records_by_type("first").len(), 1);
}

#[test]
fn lost_update_is_made_up_for_in_the_log() {
    let mut files = Handle::create().files();
    let fence = files.log.len() as u64;
    files.wal.push(pending(
        100,
        WalOperation::UpdateState {
            state_id: "s".to_string(),
            operation_data: b"update".to_vec(),
            branch_id: 1,
            log_fence: fence,
        },
    ));
    let mut store = chronicle::Store::open(files, 10).unwrap();
    let ids = store.get_records_by_type("state_update");
    assert_eq!(ids.len(), 1);
    assert_eq!(store.get_record(ids[0]).unwrap().unwrap().payload, b"update");
    assert_eq!(store.current_branch().unwrap().head, Sequence(1));
    assert!(store.get_state("s").unwrap().is_none());
}

#[test]
fn lost_blob_and_branch_are_made_up_for() {
    let mut files = Handle::create().files();
    files.wal.push(pending(
        100,
        WalOperation::StoreBlob { content: b"lost".to_vec(), content_type: "text/plain".to_string() },
    ));
    files.wal.push(pending(101, WalOperation::CreateBranch { name: "lost".to_string(), from: None }));
    let mut store = chronicle::Store::open(files, 10).unwrap();
    let hash = chronicle::types::Hash::from_bytes(b"lost");
    assert_eq!(store.get_blob(&hash).unwrap().unwrap().content, b"lost");
    assert_eq!(store.list_branches().len(), 2);
}

#[test]
fn entry_for_a_missing_branch_stops_opening() {
    let mut files = Handle::create().files();
    let mut operation = append_entry("x", 0);
    if let WalOperation::AppendRecord { branch_id, .. } = &mut operation {
        *branch_id = 9;
    }
    files.wal.push(pending(100, operation));
    match chronicle::Store::open(files, 10) {
        Err(StoreError::Corruption(text)) => assert_eq!(text, "WAL replay: branch 9 not found"),
        _ => panic!("the branch of an entry has to exist"),
    }
}

#[test]
fn missing_store_is_created_only_on_demand() {
    let config = StoreConfig::default();
    assert_eq!(config.open_or_create(true).unwrap(), OpenMode::Open);
    assert_eq!(config.open_or_create(false).unwrap(), OpenMode::Create);
    let strict = StoreConfig { create_if_missing: false, ..StoreConfig::default() };
    assert!(matches!(strict.open_or_create(false), Err(StoreError::NotInitialized)));
}

#[test]
fn branches_without_a_file_are_just_main() {
    let mut files = Handle::create().files();
    files.branches = None;
    let store = chronicle::Store::open(files, 10).unwrap();
    let names: Vec<String> = store.list_branches().into_iter().map(|b| b.name).collect();
    assert_eq!(names, vec!["main".to_string()]);
}

#[test]
fn damaged_blob_does_not_stop_opening() {
    let mut files = Handle::create().files();
    let hash = chronicle::types::Hash::from_bytes(b"x");
    let mut bytes = write_blob(b"x", "t");
    bytes[0] = 0;
    files.blobs.push(BlobFile { shard: hash.shard_prefix(), name: hash.to_hex(), bytes });
    let mut store = chronicle::Store::open(files, 10).unwrap();
    assert!(store.blob_exists(&hash));
    assert!(store.get_blob(&hash).is_err());
}

#[test]
fn stored_branches_may_come_in_any_order() {
    let branch = |id: u64| Branch {
        id: BranchId(id),
        name: format!("b{}", id),
        head: Sequence(0),
        parent: None,
        branch_point: None,
        created: Timestamp(0),
    };
    let open = |list: Vec<Branch>| {
        let mut files = Handle::create().files();
        files.branches = Some((BranchIndex { branches: list, next_id: 4 }, BranchId(1)));
        chronicle::Store::open(files, 10)
    };
    let store = open(vec![branch(2), branch(3), branch(1)]).unwrap();
    let names: Vec<String> = store.list_branches().iter().map(|b| b.name.clone()).collect();
    assert_eq!(names, vec!["b1", "b2", "b3"]);
    assert_eq!(store.current_branch().unwrap().name, "b1");
    assert!(matches!(open(vec![branch(2), branch(1), branch(2)]), Err(StoreError::Corruption(_))));
    assert!(matches!(open(vec![branch(1), branch(4)]), Err(StoreError::Corruption(_))));
}

#[test]
fn replaying_twice_writes_nothing_twice() {
    let store = Handle::create();
    store.append(RecordInput::raw("first", vec![])).unwrap();
    let mut files = store.files();
    let fence = files.log.len() as u64;
    let entries = vec![
        pending(100, append_entry("second", fence)),
        pending(101, WalOperation::CreateBranch { name: "lost".to_string(), from: None }),
    ];
    files.wal = entries.clone();
    let store = Handle {
        store: RefCell::new(chronicle::Store::open(files, 10).unwrap()),
        updates: RefCell::new(HashMap::new()),
    };
    let mut files = store.files();
    let log = files.log.clone();
    files.wal = entries;
    let store = chronicle::Store::open(files, 10).unwrap();
    assert_eq!(store.record_log().bytes(), &log[..]);
    assert_eq!(store.get_records_by_type("second").len(), 1);
    assert_eq!(store.list_branches().len(), 2);
    assert_eq!(store.current_branch().unwrap().head, Sequence(2));
}

#[test]
fn records_are_read_from_the_start_without_a_current_branch() {
    let store = Handle::create();
    for i in 0..3u8 {
        store.append(RecordInput::raw("a", vec![i])).unwrap();
    }
    let mut files = store.files();
    if let Some((_, current)) = &mut files.branches {
        *current = BranchId(9);
    }
    let store = chronicle::Store::open(files, 10).unwrap();
    assert!(store.current_branch().is_err());
    assert_eq!(count(store.iter_from(Sequence(2))), 3);
}
