use chronicle::types::{FromHexError, PayloadEncoding, RecordId, RecordInput, Sequence, StateStrategy, Timestamp};
use chronicle::StoreError;

#[test]
fn test_hash_roundtrip() {
    let data = b"hello world";
    let hash = chronicle::types::Hash::from_bytes(data);
    let hex = hash.to_hex();
    let parsed = chronicle::types::Hash::from_hex(&hex).unwrap();
    assert_eq!(hash, parsed);
}

#[test]
fn test_hash_shard_prefix() {
    let hash = chronicle::types::Hash::from_bytes(b"test");
    let prefix = hash.shard_prefix();
    assert_eq!(prefix.len(), 2);
    assert!(hash.to_hex().starts_with(&prefix));
}

#[test]
fn test_sequence_navigation() {
    let seq = Sequence(5);
    assert_eq!(seq.next(), Sequence(6));
    assert_eq!(seq.prev(), Some(Sequence(4)));
    assert_eq!(Sequence(0).prev(), None);
}

#[test]
fn test_record_input_json() {
    let mut members = serde_json::Map::new();
    members.insert("message".to_string(), serde_json::Value::String("hello".to_string()));
    let payload = serde_json::to_vec(&serde_json::Value::Object(members)).unwrap();
    let input = RecordInput::json("test", payload);

    assert_eq!(input.record_type, "test");
    assert_eq!(input.encoding, PayloadEncoding::Json);
    assert_eq!(input.payload, b"{\"message\":\"hello\"}");
}

#[test]
fn hash_of_nothing_is_the_known_digest() {
    let hash = chronicle::types::Hash::from_bytes(b"");
    assert_eq!(hash.to_hex(), "af1349b9f5f9a1a6a0404dea36dcc9499bcb25c9adc112b7cc9a93cae41f3262");
    assert_eq!(hash.shard_prefix(), "af");
}

#[test]
fn from_hex_reads_upper_case() {
    let hash = chronicle::types::Hash::from_bytes(b"case");
    assert_eq!(chronicle::types::Hash::from_hex(&hash.to_hex().to_uppercase()), Ok(hash));
}

#[test]
fn from_hex_refuses_what_is_no_hash() {
    let bad = "g".repeat(64);
    assert!(matches!(chronicle::types::Hash::from_hex(&bad), Err(FromHexError::InvalidHexCharacter { .. })));
    assert_eq!(chronicle::types::Hash::from_hex("abc"), Err(FromHexError::OddLength));
    assert_eq!(chronicle::types::Hash::from_hex("abcd"), Err(FromHexError::InvalidStringLength));
}

#[test]
fn sequence_stops_at_the_largest_number() {
    assert_eq!(Sequence(u64::MAX).next(), Sequence(u64::MAX));
    assert!(matches!(Sequence(u64::MAX).checked_next(), Err(StoreError::SequenceOverflow)));
    assert_eq!(Sequence(7).checked_next().unwrap(), Sequence(8));
    assert_eq!(Sequence::default(), Sequence(0));
}

#[test]
fn timestamp_counts_microseconds() {
    assert_eq!(
        Timestamp::from_elapsed(Some(1_700_000_000_000_000), Timestamp(7)),
        Timestamp(1_700_000_000_000_000)
    );
    assert_eq!(Timestamp::from_elapsed(None, Timestamp(7)), Timestamp(7));
    assert_eq!(Timestamp::from_elapsed(Some(7), Timestamp(7)), Timestamp(7));
    assert!(Timestamp::now().0 > 1_600_000_000_000_000);
}

#[test]
fn inputs_carry_their_links() {
    let input = RecordInput::raw("note", vec![1, 2])
        .with_caused_by(vec![RecordId(1)])
        .with_linked_to(vec![RecordId(2), RecordId(3)]);
    assert_eq!(input.encoding, PayloadEncoding::Raw);
    assert_eq!(input.caused_by, vec![RecordId(1)]);
    assert_eq!(input.linked_to, vec![RecordId(2), RecordId(3)]);
    assert_eq!(PayloadEncoding::default(), PayloadEncoding::Json);
    assert!(matches!(StateStrategy::default(), StateStrategy::Snapshot));
}

#[test]
fn errors_describe_themselves() {
    assert_eq!(StoreError::Io("disk full".to_string()).message(), "IO error: disk full");
    assert_eq!(StoreError::RecordNotFound(RecordId(4)).message(), "Record not found: 4");
    assert_eq!(StoreError::BranchNotFound("dev".to_string()).message(), "Branch not found: dev");
    assert_eq!(
        StoreError::InvalidSequence(Sequence(9), Sequence(3)).message(),
        "Invalid sequence: Seq(9) (head is Seq(3))"
    );
    assert_eq!(
        StoreError::StrategyMismatch { expected: "Tree".to_string(), got: "Append".to_string() }.message(),
        "State strategy mismatch: expected Tree, got Append"
    );
    assert_eq!(StoreError::Locked.message(), "Store is locked by another process");
    assert_eq!(StoreError::ChecksumMismatch { expected: 1, got: 2 }.message(), "Checksum mismatch: expected 1, got 2");
    assert_eq!(
        StoreError::PayloadTooLarge { size: 10, limit: 5 }.message(),
        "Payload too large: 10 bytes exceeds limit of 5 bytes"
    );
    assert_eq!(StoreError::SequenceOverflow.message(), "Sequence overflow: counter exhausted");
}

#[test]
fn clock_set_back_gives_the_previous_timestamp() {
    assert_eq!(Timestamp::from_elapsed(Some(5), Timestamp(9)), Timestamp(9));
    assert_eq!(Timestamp::from_elapsed(Some(1_600_000_000_000_000), Timestamp(1_700_000_000_000_000)).0, 1_700_000_000_000_000);
    assert_eq!(Timestamp::now_after(Timestamp(i64::MAX)), Timestamp(i64::MAX));
    let first = Timestamp::now();
    assert!(Timestamp::now_after(first).0 >= first.0);
}
