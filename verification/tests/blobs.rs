use chronicle::blobs::codec::{read_blob, write_blob};
use chronicle::blobs::storage::BlobFile;
use chronicle::{BlobStorage, StoreError};

#[test]
fn test_store_and_retrieve() {
    let mut storage = BlobStorage::new(vec![], 100);

    let content = b"Hello, world!";
    let hash = storage.store(content, "text/plain");

    let blob = storage.get(&hash).unwrap().unwrap();
    assert_eq!(blob.content, content);
    assert_eq!(blob.content_type, "text/plain");
}

#[test]
fn test_deduplication() {
    let mut storage = BlobStorage::new(vec![], 100);

    let content = b"Same content";
    let hash1 = storage.store(content, "text/plain");
    let hash2 = storage.store(content, "text/plain");

    assert_eq!(hash1, hash2);
}

#[test]
fn test_exists() {
    let mut storage = BlobStorage::new(vec![], 100);

    let content = b"Test content";
    let hash = storage.store(content, "text/plain");

    assert!(storage.contains(&hash));

    let other_hash = chronicle::types::Hash::from_bytes(b"nonexistent");
    assert!(!storage.contains(&other_hash));
}

#[test]
fn test_delete() {
    let mut storage = BlobStorage::new(vec![], 100);

    let content = b"To be deleted";
    let hash = storage.store(content, "text/plain");

    assert!(storage.contains(&hash));
    assert!(storage.delete(&hash));
    assert!(!storage.contains(&hash));
}

#[test]
fn test_list() {
    let mut storage = BlobStorage::new(vec![], 100);

    let hash1 = storage.store(b"content1", "text/plain");
    let hash2 = storage.store(b"content2", "text/plain");
    let hash3 = storage.store(b"content3", "text/plain");

    let hashes = storage.list();
    assert_eq!(hashes.len(), 3);
    assert!(hashes.contains(&hash1));
    assert!(hashes.contains(&hash2));
    assert!(hashes.contains(&hash3));
}

fn stored(storage: &BlobStorage, hash: &chronicle::types::Hash) -> BlobFile {
    BlobFile { shard: hash.shard_prefix(), name: hash.to_hex(), bytes: storage.file(hash).unwrap() }
}

#[test]
fn blobs_are_read_from_their_files() {
    let mut first = BlobStorage::new(vec![], 2);
    let hash = first.store(b"kept", "text/plain");
    let file = stored(&first, &hash);

    let mut second = BlobStorage::new(vec![file], 2);
    assert!(second.contains(&hash));
    let blob = second.get(&hash).unwrap().unwrap();
    assert_eq!(blob.content, b"kept");
    assert_eq!(blob.hash, hash);
    assert_eq!(second.get(&chronicle::types::Hash::from_bytes(b"other")).unwrap().map(|b| b.content), None);
}

#[test]
fn the_first_content_type_stays() {
    let mut storage = BlobStorage::new(vec![], 0);
    let hash = storage.store(b"same", "text/plain");
    storage.store(b"same", "text/html");
    let reread = storage.file(&hash).unwrap();
    assert_eq!(read_blob(&reread, hash).unwrap().content_type, "text/plain");
}

#[test]
fn evicted_blobs_are_read_again() {
    let mut storage = BlobStorage::new(vec![], 1);
    let a = storage.store(b"a", "x");
    let b = storage.store(b"b", "y");
    for _ in 0..3 {
        assert_eq!(storage.get(&a).unwrap().unwrap().content, b"a");
        assert_eq!(storage.get(&b).unwrap().unwrap().content, b"b");
    }
}

#[test]
fn blob_bytes_have_a_known_layout() {
    let bytes = write_blob(b"hi", "t");
    let mut expected = b"BLB\0\x01".to_vec();
    expected.extend_from_slice(&1u16.to_le_bytes());
    expected.extend_from_slice(b"t");
    expected.extend_from_slice(&2u64.to_le_bytes());
    expected.extend_from_slice(b"hi");
    expected.extend_from_slice(&crc32fast::hash(b"hi").to_le_bytes());
    assert_eq!(bytes, expected);
}

#[test]
fn changed_blob_is_refused() {
    let mut storage = BlobStorage::new(vec![], 10);
    let hash = storage.store(b"content", "text/plain");
    let mut file = stored(&storage, &hash);
    let last = file.bytes.len() - 1;
    file.bytes[last] ^= 1;

    let mut reopened = BlobStorage::new(vec![file], 10);
    assert!(matches!(reopened.get(&hash), Err(StoreError::ChecksumMismatch { .. })));
}

#[test]
fn blob_under_another_name_is_refused() {
    let mut storage = BlobStorage::new(vec![], 10);
    let hash = storage.store(b"content", "text/plain");
    let other = chronicle::types::Hash::from_bytes(b"other");
    let file = BlobFile { shard: other.shard_prefix(), name: other.to_hex(), bytes: storage.file(&hash).unwrap() };

    let mut reopened = BlobStorage::new(vec![file], 10);
    match reopened.get(&other) {
        Err(StoreError::HashMismatch { expected, got }) => {
            assert_eq!(expected, other);
            assert_eq!(got, hash);
        }
        _ => panic!("a blob whose content has another hash may not be read"),
    }
}

#[test]
fn foreign_blob_files_are_refused() {
    let hash = chronicle::types::Hash::from_bytes(b"x");
    let mut bytes = write_blob(b"x", "t");
    bytes[0] = b'Z';
    assert!(matches!(read_blob(&bytes, hash), Err(StoreError::InvalidFormat(_))));

    let mut bytes = write_blob(b"x", "t");
    bytes[4] = 9;
    assert!(matches!(read_blob(&bytes, hash), Err(StoreError::InvalidFormat(_))));

    let mut bytes = write_blob(b"x", "t");
    bytes[8..16].copy_from_slice(&(2 * 1024 * 1024 * 1024u64).to_le_bytes());
    assert!(matches!(read_blob(&bytes, hash), Err(StoreError::PayloadTooLarge { .. })));

    let bytes = write_blob(b"x", "t");
    assert!(matches!(read_blob(&bytes[..10], hash), Err(StoreError::Io(_))));
}

#[test]
fn sizes_add_up() {
    let mut storage = BlobStorage::new(vec![], 10);
    let a = storage.store(b"aa", "t");
    let b = storage.store(b"bbb", "t");
    let sum = storage.file(&a).unwrap().len() + storage.file(&b).unwrap().len();
    assert_eq!(storage.total_size(), sum as u64);
    storage.delete(&a);
    assert!(!storage.delete(&a));
    assert_eq!(storage.total_size(), storage.file(&b).unwrap().len() as u64);
}
