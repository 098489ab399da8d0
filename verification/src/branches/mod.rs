//! Branches with copy-on-write semantics.
pub mod collection;
pub mod laws;
pub mod manager;

pub use manager::{BranchGcOptions, BranchGcResult, BranchManager};
