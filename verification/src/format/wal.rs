//! Write-ahead log (`wal.log`): crash recovery.
use vstd::prelude::*;

verus! {

/// Magic bytes at offset 0. ASCII "WAL\0".
pub const MAGIC: [u8; 4] = [0x57, 0x41, 0x4C, 0x00];

/// Current WAL format version.
pub const VERSION: u8 = 1;

/// Maximum size of a single serialized WAL entry.
pub const MAX_ENTRY_SIZE: u32 = 16 * 1024 * 1024;

} // verus!
