//! Records metadata (`records.meta`): the last record id and the log size it belongs
//! to, so that opening a store need not scan the log.
use vstd::prelude::*;

verus! {

/// Magic bytes at offset 0. ASCII "RMT\0".
pub const MAGIC: [u8; 4] = [0x52, 0x4D, 0x54, 0x00];

/// Current records.meta version.
pub const VERSION: u8 = 1;

} // verus!
