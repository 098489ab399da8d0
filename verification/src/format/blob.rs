//! Blob storage (`blobs/<shard>/<hash>`): content-addressed binary blobs.
use vstd::prelude::*;

verus! {

/// Magic bytes at offset 0 of every blob file. ASCII "BLB\0".
pub const MAGIC: [u8; 4] = [0x42, 0x4C, 0x42, 0x00];

/// Current blob file version.
pub const VERSION: u8 = 1;

/// Maximum blob content size.
pub const MAX_SIZE: u64 = 1024 * 1024 * 1024;

} // verus!
