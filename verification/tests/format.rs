use chronicle::format::branch_index::{read_branch_file, write_branch_file};
use chronicle::format::manifest::{verify_manifest, write_manifest};
use chronicle::format::state_index::{read_state_file, write_state_file};
use chronicle::format::CURRENT_VERSIONS;
use chronicle::StoreError;

#[test]
fn all_magic_bytes_are_distinct() {
    let mut seen: Vec<[u8; 4]> = Vec::new();
    for (name, magic, _) in CURRENT_VERSIONS {
        assert!(!seen.contains(&magic), "Duplicate magic bytes for {}: {:?}", name, magic);
        seen.push(magic);
    }
}

#[test]
fn all_magic_bytes_are_four_ascii_chars() {
    for (name, magic, _) in CURRENT_VERSIONS {
        // First three bytes should be printable ASCII, last should be NUL
        for (i, &b) in magic[..3].iter().enumerate() {
            assert!((32..=126).contains(&b), "{}: byte {} is not printable ASCII: {}", name, i, b);
        }
        assert_eq!(magic[3], 0, "{}: fourth byte should be NUL", name);
    }
}

#[test]
fn version_sanity() {
    // All versions should be nonzero (v0 is reserved as "invalid")
    for (name, _, version) in CURRENT_VERSIONS {
        assert!(version > 0, "{}: version should be > 0", name);
    }
}

#[test]
fn manifest_is_checked() {
    let good = write_manifest();
    assert!(verify_manifest(&good).is_ok());
    let mut foreign = good.clone();
    foreign[0] = b'X';
    assert!(matches!(verify_manifest(&foreign), Err(StoreError::InvalidFormat(_))));
    let mut later = good.clone();
    later[4] = 99;
    assert!(matches!(verify_manifest(&later), Err(StoreError::InvalidFormat(_))));
    assert!(verify_manifest(&good[..3]).is_err());
}

#[test]
fn state_file_round_trips() {
    let bytes = write_state_file(b"index");
    assert_eq!(&bytes[..5], b"STI\0\x03");
    assert_eq!(read_state_file(&bytes).unwrap(), b"index");
}

#[test]
fn old_state_file_has_no_checksum() {
    let mut bytes = write_state_file(b"index");
    bytes[4] = 2;
    let short = bytes.len() - 4;
    assert_eq!(read_state_file(&bytes[..short]).unwrap(), b"index");
    bytes[4] = 1;
    assert!(matches!(read_state_file(&bytes), Err(StoreError::InvalidFormat(_))));
}

#[test]
fn branch_file_round_trips() {
    let bytes = write_branch_file(7, b"branches");
    assert_eq!(&bytes[..5], b"BRI\0\x02");
    let (current, body) = read_branch_file(&bytes).unwrap();
    assert_eq!(current, 7);
    assert_eq!(body, b"branches");
}

#[test]
fn changed_index_files_are_refused() {
    let mut states = write_state_file(b"index");
    let at = states.len() - 5;
    states[at] ^= 1;
    assert!(matches!(read_state_file(&states), Err(StoreError::ChecksumMismatch { .. })));

    let mut branches = write_branch_file(7, b"branches");
    let at = branches.len() - 5;
    branches[at] ^= 1;
    assert!(matches!(read_branch_file(&branches), Err(StoreError::ChecksumMismatch { .. })));
}
