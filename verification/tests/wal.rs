use chronicle::wal::frames::{check_header, read_entries, read_entry, write_entry, write_header};
use chronicle::{StoreError, WalEntry, WalEntryStatus, WalOperation, WriteAheadLog};

fn append(record_type: &str, payload: &[u8]) -> WalOperation {
    WalOperation::AppendRecord {
        record_type: record_type.to_string(),
        payload: payload.to_vec(),
        encoding: 0,
        caused_by: vec![],
        linked_to: vec![],
        branch_id: 1,
        log_fence: 0,
    }
}

#[test]
fn test_wal_basic() {
    let mut wal = WriteAheadLog::open(vec![]);

    // Log an operation
    let seq = wal.log(append("test", b"hello"));

    assert_eq!(seq, 1);

    // Should have one pending entry
    let pending = wal.get_pending_entries();
    assert_eq!(pending.len(), 1);
    assert_eq!(pending[0].seq, 1);

    // Commit it
    wal.commit(1);

    // Should have no pending entries
    let pending = wal.get_pending_entries();
    assert!(pending.is_empty());
}

#[test]
fn test_wal_multiple_entries() {
    let mut wal = WriteAheadLog::open(vec![]);

    // Log multiple operations
    let seq1 = wal.log(append("test1", b"one"));
    let seq2 = wal.log(append("test2", b"two"));
    let seq3 = wal.log(append("test3", b"three"));

    assert_eq!(seq1, 1);
    assert_eq!(seq2, 2);
    assert_eq!(seq3, 3);

    // Commit first and third
    wal.commit(1);
    wal.commit(3);

    // Only second should be pending
    let pending = wal.get_pending_entries();
    assert_eq!(pending.len(), 1);
    assert_eq!(pending[0].seq, 2);
}

#[test]
fn test_wal_persistence() {
    let mut wal = WriteAheadLog::open(vec![]);
    wal.log(WalOperation::StoreBlob {
        content: b"blob content".to_vec(),
        content_type: "text/plain".to_string(),
    });
    let entries: Vec<WalEntry> = wal.entries().to_vec();

    // Reopen and check pending
    let wal = WriteAheadLog::open(entries);
    let pending = wal.get_pending_entries();
    assert_eq!(pending.len(), 1);

    if let WalOperation::StoreBlob { content, .. } = &pending[0].operation {
        assert_eq!(content, b"blob content");
    } else {
        panic!("Wrong operation type");
    }
}

#[test]
fn test_wal_clear() {
    let mut wal = WriteAheadLog::open(vec![]);

    // Log some operations
    wal.log(append("test", b""));

    assert!(wal.has_pending());

    // Clear
    wal.clear();

    assert!(!wal.has_pending());

    // Can log again
    let seq = wal.log(append("after_clear", b""));

    // Sequence should reset
    assert_eq!(seq, 1);
}

#[test]
fn numbering_goes_on_after_reopening() {
    let mut wal = WriteAheadLog::open(vec![]);
    wal.log(append("a", b""));
    wal.log(append("b", b""));
    wal.commit(1);
    let wal2 = WriteAheadLog::open(wal.entries().to_vec());
    assert_eq!(wal2.next_seq(), wal.next_seq());
    assert_eq!(wal2.get_pending_entries().len(), 1);
}

#[test]
fn committed_entries_are_marked_in_the_log() {
    let mut wal = WriteAheadLog::open(vec![]);
    wal.log(append("a", b""));
    wal.commit(1);
    assert_eq!(wal.entries().len(), 2);
    assert_eq!(wal.entries()[1].status, WalEntryStatus::Committed);
    assert!(matches!(wal.entries()[1].operation, WalOperation::CommitMarker));
}

#[test]
fn frames_round_trip() {
    let mut bytes = write_header();
    assert_eq!(bytes, b"WAL\0\x01");
    write_entry(&mut bytes, b"first");
    write_entry(&mut bytes, b"");
    write_entry(&mut bytes, b"third");
    assert_eq!(read_entries(&bytes).unwrap(), vec![b"first".to_vec(), vec![], b"third".to_vec()]);
}

#[test]
fn frame_checksum_is_crc32() {
    let mut bytes = vec![];
    write_entry(&mut bytes, b"123456789");
    let mut expected = 9u32.to_le_bytes().to_vec();
    expected.extend_from_slice(b"123456789");
    expected.extend_from_slice(&0xCBF43926u32.to_le_bytes());
    assert_eq!(bytes, expected);
}

#[test]
fn torn_entry_ends_the_log() {
    let mut bytes = write_header();
    write_entry(&mut bytes, b"whole");
    let keep = bytes.len();
    write_entry(&mut bytes, b"torn");
    for end in keep..bytes.len() {
        assert_eq!(read_entries(&bytes[..end]).unwrap(), vec![b"whole".to_vec()]);
    }
}

#[test]
fn changed_entry_is_refused() {
    let mut bytes = write_header();
    write_entry(&mut bytes, b"body");
    let at = bytes.len() - 5;
    bytes[at] ^= 1;
    assert!(matches!(read_entry(&bytes, 5), Err(StoreError::Corruption(_))));
}

#[test]
fn oversized_entry_is_refused() {
    let mut bytes = write_header();
    bytes.extend_from_slice(&(16 * 1024 * 1024u32 + 1).to_le_bytes());
    bytes.extend_from_slice(&[0; 32]);
    assert!(matches!(read_entry(&bytes, 5), Err(StoreError::Corruption(_))));
}

#[test]
fn foreign_header_is_refused() {
    assert!(check_header(b"WAL\0\x01").is_ok());
    assert!(matches!(check_header(b"XXX\0\x01"), Err(StoreError::InvalidFormat(_))));
    assert!(matches!(check_header(b"WAL\0\x02"), Err(StoreError::InvalidFormat(_))));
    assert!(read_entries(b"XXX\0\x01").is_err());
}

#[test]
fn clock_reading_is_cut_to_whole_seconds() {
    assert_eq!(chronicle::wal::log::whole_seconds(None), 0);
    assert_eq!(chronicle::wal::log::whole_seconds(Some(999_999)), 0);
    assert_eq!(chronicle::wal::log::whole_seconds(Some(1_700_000_000_999_999)), 1_700_000_000);
}

#[test]
fn committing_an_unknown_entry_leaves_the_others_pending() {
    let mut wal = WriteAheadLog::open(vec![]);
    wal.log(append("a", b""));
    wal.commit(99);
    assert_eq!(wal.entries().len(), 2);
    assert_eq!(wal.get_pending_entries().len(), 1);
}

#[test]
fn pending_are_those_logged_and_not_committed() {
    let mut wal = WriteAheadLog::open(vec![]);
    for i in 0..9u8 {
        wal.log(append("a", &[i]));
        if i % 3 == 1 {
            wal.commit(u64::from(i));
        }
    }
    wal.commit(9);
    let open = |w: &WriteAheadLog| w.get_pending_entries().iter().map(|e| e.seq).collect::<Vec<_>>();
    assert_eq!(open(&wal), vec![2, 3, 5, 6, 8]);
    assert!(wal.has_pending());
    let again = WriteAheadLog::open(wal.entries().to_vec());
    assert_eq!(open(&again), vec![2, 3, 5, 6, 8]);
}
