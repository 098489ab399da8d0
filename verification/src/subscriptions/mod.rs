//! Subscriptions: who hears of what happens in a store.
//!
//! Each subscriber has a queue of events. A subscriber whose queue is full is dropped.
pub mod laws;
pub mod manager;
pub mod snapshot;
pub mod types;

pub use manager::SubscriptionManager;
pub use types::{BranchSummary, DropReason, RecordSummary, StoreEvent, SubscriptionConfig, SubscriptionFilter, SubscriptionId};
