use chronicle::records::codec::{read_record, write_record};
use chronicle::records::log::RecordIterator;
use chronicle::records::meta::{decode_meta, encode_meta};
use chronicle::types::{BranchId, PayloadEncoding, Record, RecordId, RecordInput, Sequence, Timestamp};
use chronicle::{RecordIndex, RecordLog, StoreError};

fn drain(mut it: RecordIterator) -> Vec<Result<(u64, Record), StoreError>> {
    let mut out = vec![];
    loop {
        match it.next() {
            Some(r) => out.push(r),
            None => return out,
        }
    }
}

fn collected(log: &RecordLog) -> Vec<Result<(u64, Record), StoreError>> {
    drain(log.iter_from(0))
}

#[test]
fn test_add_and_lookup() {
    let mut index = RecordIndex::new();

    let id = RecordId(1);
    let branch = BranchId(1);
    let seq = Sequence(1);

    index.add(id, branch, seq, 0, "test", &[], &[]);

    assert_eq!(index.get_offset(branch, seq), Some(0));
    assert_eq!(index.get_offset_by_id(id), Some(0));
}

#[test]
fn test_type_index() {
    let mut index = RecordIndex::new();

    let branch = BranchId(1);

    index.add(RecordId(1), branch, Sequence(1), 0, "message", &[], &[]);
    index.add(RecordId(2), branch, Sequence(2), 100, "message", &[], &[]);
    index.add(RecordId(3), branch, Sequence(3), 200, "code", &[], &[]);

    let messages = index.get_by_type("message");
    assert_eq!(messages.len(), 2);

    let code = index.get_by_type("code");
    assert_eq!(code.len(), 1);
}

#[test]
fn test_caused_by_index() {
    let mut index = RecordIndex::new();

    let branch = BranchId(1);
    let cause = RecordId(1);

    index.add(cause, branch, Sequence(1), 0, "cause", &[], &[]);
    index.add(
        RecordId(2),
        branch,
        Sequence(2),
        100,
        "effect",
        &[cause],
        &[],
    );
    index.add(
        RecordId(3),
        branch,
        Sequence(3),
        200,
        "effect",
        &[cause],
        &[],
    );

    let effects = index.get_caused_by(cause);
    assert_eq!(effects.len(), 2);
}

#[test]
fn test_rebuild_from_log() {

    // Create log with some records
    let mut log = RecordLog::open(vec![], None).unwrap();
    let branch = BranchId(1);

    log.append(
        RecordInput::raw("message", b"hello".to_vec()),
        branch,
        Sequence(1),
    );
    log.append(
        RecordInput::raw("message", b"world".to_vec()),
        branch,
        Sequence(2),
    );
    log.append(
        RecordInput::raw("code", b"fn main() {}".to_vec()),
        branch,
        Sequence(3),
    );

    // Rebuild index from log
    let index = RecordIndex::rebuild_from_log(&log).unwrap();

    // Verify all records are indexed
    assert_eq!(index.count(), 3);
    assert_eq!(index.get_by_type("message").len(), 2);
    assert_eq!(index.get_by_type("code").len(), 1);

    // Verify sequence lookups work
    assert!(index.get_offset(branch, Sequence(1)).is_some());
    assert!(index.get_offset(branch, Sequence(2)).is_some());
    assert!(index.get_offset(branch, Sequence(3)).is_some());
}

#[test]
fn test_rebuild_from_empty_log() {

    let log = RecordLog::open(vec![], None).unwrap();
    let index = RecordIndex::rebuild_from_log(&log).unwrap();

    assert_eq!(index.count(), 0);
}

#[test]
fn test_query_range_forward() {
    let mut index = RecordIndex::new();
    let branch = BranchId(1);

    // Add records with sequences 1-10
    for i in 1..=10u64 {
        index.add(RecordId(i), branch, Sequence(i), i * 100, "test", &[], &[]);
    }

    // Query range [3, 7] forward
    let results = index.query_range(branch, Some(Sequence(3)), Some(Sequence(7)), 100, false);
    assert_eq!(results.len(), 5);
    assert_eq!(results[0].0, Sequence(3)); // First result is seq 3
    assert_eq!(results[4].0, Sequence(7)); // Last result is seq 7
}

#[test]
fn test_query_range_reverse() {
    let mut index = RecordIndex::new();
    let branch = BranchId(1);

    // Add records with sequences 1-10
    for i in 1..=10u64 {
        index.add(RecordId(i), branch, Sequence(i), i * 100, "test", &[], &[]);
    }

    // Query range [3, 7] reverse
    let results = index.query_range(branch, Some(Sequence(3)), Some(Sequence(7)), 100, true);
    assert_eq!(results.len(), 5);
    assert_eq!(results[0].0, Sequence(7)); // First result is seq 7 (highest)
    assert_eq!(results[4].0, Sequence(3)); // Last result is seq 3 (lowest)
}

#[test]
fn test_query_range_with_limit() {
    let mut index = RecordIndex::new();
    let branch = BranchId(1);

    // Add records with sequences 1-100
    for i in 1..=100u64 {
        index.add(RecordId(i), branch, Sequence(i), i * 100, "test", &[], &[]);
    }

    // Query all with limit 10, forward
    let results = index.query_range(branch, None, None, 10, false);
    assert_eq!(results.len(), 10);
    assert_eq!(results[0].0, Sequence(1)); // Starts at seq 1

    // Query all with limit 10, reverse
    let results = index.query_range(branch, None, None, 10, true);
    assert_eq!(results.len(), 10);
    assert_eq!(results[0].0, Sequence(100)); // Starts at seq 100 (newest)
}

#[test]
fn test_query_range_open_ended() {
    let mut index = RecordIndex::new();
    let branch = BranchId(1);

    // Add records with sequences 1-10
    for i in 1..=10u64 {
        index.add(RecordId(i), branch, Sequence(i), i * 100, "test", &[], &[]);
    }

    // Query from seq 5 to end
    let results = index.query_range(branch, Some(Sequence(5)), None, 100, false);
    assert_eq!(results.len(), 6); // 5,6,7,8,9,10
    assert_eq!(results[0].0, Sequence(5));

    // Query from beginning to seq 5
    let results = index.query_range(branch, None, Some(Sequence(5)), 100, false);
    assert_eq!(results.len(), 5); // 1,2,3,4,5
    assert_eq!(results[4].0, Sequence(5));
}

#[test]
fn test_append_and_read() {
    let mut log = RecordLog::open(vec![], None).unwrap();

    let input = RecordInput::raw("test", b"hello".to_vec());
    let (record, offset) = log.append(input, BranchId(1), Sequence(1));

    assert_eq!(record.id.0, 1);
    assert_eq!(record.sequence.0, 1);
    assert_eq!(record.payload, b"hello");
    assert_eq!(offset, 0);
}

#[test]
fn test_multiple_records() {
    let mut log = RecordLog::open(vec![], None).unwrap();

    for i in 1..=10 {
        let input = RecordInput::raw("test", format!("record {}", i).into_bytes());
        let (record, _offset) = log.append(input, BranchId(1), Sequence(i));
        assert_eq!(record.id.0, i);
    }

    // Iterate and verify
    let records = collected(&log);
    assert_eq!(records.len(), 10);
}

#[test]
fn log_test_persistence() {
    // Write some records
    let mut log = RecordLog::open(vec![], None).unwrap();
    for i in 1..=5 {
        let input = RecordInput::raw("test", format!("record {}", i).into_bytes());
        log.append(input, BranchId(1), Sequence(i));
    }
    let bytes = log.bytes().to_vec();

    // Reopen and verify
    let mut log = RecordLog::open(bytes, None).unwrap();
    assert_eq!(collected(&log).len(), 5);

    // Append more
    let input = RecordInput::raw("test", b"record 6".to_vec());
    let (record, _offset) = log.append(input, BranchId(1), Sequence(6));
    assert_eq!(record.id.0, 6); // Should continue from max ID
}

fn sample() -> Record {
    Record {
        id: RecordId(7),
        sequence: Sequence(3),
        branch: BranchId(2),
        timestamp: Timestamp(-5),
        record_type: "note".to_string(),
        payload: vec![1, 2, 3],
        encoding: PayloadEncoding::MessagePack,
        caused_by: vec![RecordId(1)],
        linked_to: vec![RecordId(2), RecordId(4)],
    }
}

#[test]
fn written_record_is_read_back() {
    let mut bytes = vec![0xEE; 3];
    write_record(&mut bytes, &sample());
    let (r, end) = read_record(&bytes, 3).unwrap();
    assert_eq!(end, bytes.len());
    assert_eq!(r.id, RecordId(7));
    assert_eq!(r.sequence, Sequence(3));
    assert_eq!(r.branch, BranchId(2));
    assert_eq!(r.timestamp, Timestamp(-5));
    assert_eq!(r.record_type, "note");
    assert_eq!(r.payload, vec![1, 2, 3]);
    assert_eq!(r.encoding, PayloadEncoding::MessagePack);
    assert_eq!(r.caused_by, vec![RecordId(1)]);
    assert_eq!(r.linked_to, vec![RecordId(2), RecordId(4)]);
}

#[test]
fn record_bytes_start_with_magic_and_version() {
    let mut bytes = vec![];
    write_record(&mut bytes, &sample());
    assert_eq!(&bytes[..5], b"REC\0\x02");
    assert_eq!(bytes[5], 0);
    assert_eq!(bytes[6..14], 7u64.to_le_bytes());
    assert_eq!(bytes[14..22], 3u64.to_le_bytes());
    assert_eq!(bytes[22..30], 2u64.to_le_bytes());
    assert_eq!(bytes[30..38], (-5i64).to_le_bytes());
    assert_eq!(bytes[38..40], 4u16.to_le_bytes());
    assert_eq!(&bytes[40..44], b"note");
    assert_eq!(bytes[44], 1);
    assert_eq!(bytes[45..49], 3u32.to_le_bytes());
    assert_eq!(bytes.len(), 49 + 3 + 2 + 8 + 2 + 16 + 4);
}

#[test]
fn every_changed_byte_is_noticed() {
    let mut bytes = vec![];
    write_record(&mut bytes, &sample());
    // The sixth byte holds flags, which mean nothing yet.
    for i in (0..bytes.len()).filter(|i| *i != 5) {
        let mut changed = bytes.clone();
        changed[i] ^= 0x10;
        assert!(read_record(&changed, 0).is_err(), "byte {} may not change", i);
    }
}

#[test]
fn truncated_record_is_an_io_error() {
    let mut bytes = vec![];
    write_record(&mut bytes, &sample());
    for end in 0..bytes.len() {
        assert!(matches!(read_record(&bytes[..end], 0), Err(StoreError::Io(_))));
    }
}

#[test]
fn damaged_records_name_their_error() {
    let mut bytes = vec![];
    write_record(&mut bytes, &sample());

    let mut foreign = bytes.clone();
    foreign[0] = b'X';
    assert!(matches!(read_record(&foreign, 0), Err(StoreError::InvalidFormat(_))));

    let mut later = bytes.clone();
    later[4] = 9;
    assert!(matches!(read_record(&later, 0), Err(StoreError::InvalidFormat(_))));

    let mut huge = bytes.clone();
    huge[45..49].copy_from_slice(&(256 * 1024 * 1024u32 + 1).to_le_bytes());
    assert!(matches!(read_record(&huge, 0), Err(StoreError::PayloadTooLarge { limit: 268435456, .. })));

    let mut payload = bytes.clone();
    payload[49] ^= 1;
    assert!(matches!(read_record(&payload, 0), Err(StoreError::ChecksumMismatch { .. })));
}

#[test]
fn meta_saves_the_scan() {
    assert_eq!(decode_meta(&encode_meta(41, 100), 100), Some(41));
    assert_eq!(decode_meta(&encode_meta(41, 100), 101), None);
    assert_eq!(decode_meta(b"RMT", 100), None);
    let mut other = encode_meta(41, 100);
    other[0] = b'X';
    assert_eq!(decode_meta(&other, 100), None);
}

#[test]
fn stale_meta_is_passed_over() {
    let mut log = RecordLog::open(vec![], None).unwrap();
    log.append(RecordInput::raw("a", vec![]), BranchId(1), Sequence(1));
    let stale = log.meta();
    log.append(RecordInput::raw("b", vec![]), BranchId(1), Sequence(2));
    let bytes = log.bytes().to_vec();
    assert_eq!(RecordLog::open(bytes.clone(), Some(stale)).unwrap().next_id(), 3);
    let fresh = log.meta();
    assert_eq!(RecordLog::open(bytes, Some(fresh)).unwrap().next_id(), 3);
}

#[test]
fn sync_falls_due_after_the_interval() {
    let mut log = RecordLog::open_with_sync_interval(vec![], None, 2).unwrap();
    assert!(!log.needs_sync());
    log.append(RecordInput::raw("a", vec![]), BranchId(1), Sequence(1));
    assert!(log.needs_sync());
    log.append(RecordInput::raw("b", vec![]), BranchId(1), Sequence(2));
    assert!(!log.needs_sync());
    log.append(RecordInput::raw("c", vec![]), BranchId(1), Sequence(3));
    log.sync();
    assert!(!log.needs_sync());
}

#[test]
fn offsets_lead_back_to_their_records() {
    let mut log = RecordLog::open(vec![], None).unwrap();
    let mut offsets = vec![];
    for i in 1..=4u64 {
        let (_, at) = log.append(RecordInput::raw("t", vec![i as u8; i as usize]), BranchId(1), Sequence(i));
        offsets.push(at);
    }
    for (i, at) in offsets.iter().enumerate() {
        let (record, end) = log.read_at_with_end(*at).unwrap();
        assert_eq!(record.sequence, Sequence(i as u64 + 1));
        assert_eq!(end, offsets.get(i + 1).copied().unwrap_or(log.size()));
    }
    assert!(log.read_at(log.size()).is_err());
    assert_eq!(drain(log.iter()).len(), 4);
    assert_eq!(drain(log.iter_from(offsets[2])).len(), 2);
}

#[test]
fn iteration_ends_with_the_first_error() {
    let mut log = RecordLog::open(vec![], None).unwrap();
    log.append(RecordInput::raw("a", vec![]), BranchId(1), Sequence(1));
    let (_, second) = log.append(RecordInput::raw("b", vec![9]), BranchId(1), Sequence(2));
    log.append(RecordInput::raw("c", vec![]), BranchId(1), Sequence(3));
    let mut bytes = log.bytes().to_vec();
    bytes[second as usize] = b'X';
    let meta = Some(log.meta());
    let log = RecordLog::open(bytes, meta).unwrap();
    let found = collected(&log);
    assert_eq!(found.len(), 2);
    assert!(found[0].is_ok());
    assert!(found[1].is_err());
    assert!(RecordIndex::rebuild_from_log(&log).is_err());
}

#[test]
fn rebuilt_index_knows_the_links() {
    let mut log = RecordLog::open(vec![], None).unwrap();
    let (first, _) = log.append(RecordInput::raw("a", vec![]), BranchId(1), Sequence(1));
    let (second, at) = log.append(
        RecordInput::raw("b", vec![]).with_caused_by(vec![first.id]).with_linked_to(vec![first.id]),
        BranchId(1),
        Sequence(2),
    );
    let index = RecordIndex::rebuild_from_log(&log).unwrap();
    assert_eq!(index.get_caused_by(first.id), vec![second.id]);
    assert_eq!(index.get_linked_to(first.id), vec![second.id]);
    assert_eq!(index.get_offset_by_id(second.id), Some(at));
    assert_eq!(index.max_sequence(BranchId(1)), Some(Sequence(2)));
    assert_eq!(index.max_sequence(BranchId(2)), None);
    assert_eq!(index.get_by_type("missing"), vec![]);
}

#[test]
fn ranges_stay_on_their_branch() {
    let mut index = RecordIndex::new();
    index.add(RecordId(1), BranchId(1), Sequence(1), 10, "t", &[], &[]);
    index.add(RecordId(2), BranchId(2), Sequence(2), 20, "t", &[], &[]);
    index.add(RecordId(3), BranchId(1), Sequence(3), 30, "t", &[], &[]);
    assert_eq!(
        index.query_range(BranchId(1), None, None, 10, false),
        vec![(Sequence(1), 10), (Sequence(3), 30)]
    );
    assert_eq!(index.query_range(BranchId(2), Some(Sequence(3)), None, 10, false), vec![]);
}

#[test]
fn cut_record_does_not_stop_opening() {
    let mut log = RecordLog::open(b"REC\0\x02".to_vec(), None).unwrap();
    assert_eq!(log.next_id(), 1);
    let (record, _) = log.append(RecordInput::raw("a", vec![]), BranchId(1), Sequence(1));
    assert_eq!(record.id.0, 1);
}

#[test]
fn range_that_ends_before_it_starts_is_empty() {
    let mut index = RecordIndex::new();
    for i in 1..=9u64 {
        index.add(RecordId(i), BranchId(1), Sequence(i), i * 100, "test", &[], &[]);
    }
    assert!(index.query_range(BranchId(1), Some(Sequence(7)), Some(Sequence(3)), 10, false).is_empty());
}

#[test]
fn records_get_no_older() {
    let mut log = RecordLog::open(vec![], None).unwrap();
    assert_eq!(log.last_timestamp(), Timestamp(0));
    let (first, _) = log.append(RecordInput::raw("a", vec![]), BranchId(1), Sequence(1));
    assert_eq!(log.last_timestamp(), first.timestamp);
    let ahead = Timestamp(i64::MAX - 7);
    log.append_at(RecordInput::raw("b", vec![]), BranchId(1), Sequence(2), ahead);
    let (third, _) = log.append(RecordInput::raw("c", vec![]), BranchId(1), Sequence(3));
    assert_eq!(third.timestamp, ahead);
    assert_eq!(log.last_timestamp(), ahead);
}
