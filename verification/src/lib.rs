//! Chronicle: a branchable, append-only record store.
//!
//! Records, branches, state chains and blobs are kept as values and as the
//! bytes of the files that hold them. Every operation is stated in a contract
//! over mathematical models of those values.
pub mod binding_laws;
pub mod bindings;
pub mod blobs;
pub mod branches;
pub mod bytes;
pub mod cache;
pub mod clock;
pub mod digest;
pub mod error;
pub mod format;
pub mod json;
pub mod order;
pub mod records;
pub mod state;
pub mod store;
pub mod subscriptions;
pub mod text;
pub mod tree;
pub mod tree_laws;
pub mod types;
pub mod wal;

pub use blobs::BlobStorage;
pub use branches::manager::{BranchGcOptions, BranchGcResult, BranchIndex, BranchManager};
pub use error::StoreError;
pub use records::index::RecordIndex;
pub use records::log::RecordLog;
pub use state::apply_operation;
pub use state::manager::{CompactionStats, SnapshotNeeded, StateChainHead, StateIndex, StateManager};
pub use state::walks::ChainStats;
pub use store::{CompactionSummary, OpenMode, Store, StoreConfig, StoreFiles};
pub use subscriptions::{BranchSummary, DropReason, RecordSummary, StoreEvent, SubscriptionConfig, SubscriptionFilter, SubscriptionId, SubscriptionManager};
pub use types::{Blob, Branch, BranchId, PayloadEncoding, Record, RecordId, RecordInput, Sequence, StateOperation, StateRegistration, StateStrategy, StateUpdateRecord, StoreStats, Timestamp, TreeChange, TreeEntry, TreeOp};
pub use wal::{WalEntry, WalEntryStatus, WalOperation, WriteAheadLog};
