//! State chains: operations, walks along a chain, and the state manager.
pub mod chain;
pub mod chain_laws;
pub mod head_laws;
pub mod item_laws;
pub mod laws;
pub mod manager;
pub mod operations;
pub mod walks;

pub use operations::apply_operation;
