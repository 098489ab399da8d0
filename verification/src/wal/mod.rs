//! Write-Ahead Log for crash recovery.
//!
//! The WAL ensures durability by writing operations to a separate log before they are
//! committed to the main store. On recovery, uncommitted operations can be replayed.
pub mod frames;
pub mod laws;
pub mod log;

pub use log::{WalEntry, WalEntryStatus, WalOperation, WriteAheadLog};
