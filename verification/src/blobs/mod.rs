//! Content-addressed blob storage.
//!
//! Blobs are stored in a sharded directory structure based on the first two
//! characters of their hash.
pub mod codec;
pub mod laws;
pub mod storage;

pub use storage::BlobStorage;
