//! The record log and its index.
pub mod codec;
pub mod index;
pub mod laws;
pub mod log;
pub mod meta;

pub use index::RecordIndex;
pub use log::{RecordIterator, RecordLog};
