//! Record log (`records.log`): append-only binary log of every record.
use vstd::prelude::*;

verus! {

/// Magic bytes at the start of every record. ASCII "REC\0".
pub const MAGIC: [u8; 4] = [0x52, 0x45, 0x43, 0x00];

/// Current record format version; the checksum covers all record fields.
pub const VERSION: u8 = 2;

/// Maximum payload size in a single record.
pub const MAX_PAYLOAD_SIZE: u32 = 256 * 1024 * 1024;

/// Default number of writes between syncs.
pub const DEFAULT_SYNC_INTERVAL: u64 = 100;

} // verus!
