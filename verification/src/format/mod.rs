//! On-disk format constants: every magic-byte sequence, version byte and size
//! limit that ends up in a file. Each file has a version of its own.
pub mod blob;
pub mod branch_index;
pub mod envelope;
pub mod layouts;
pub mod manifest;
pub mod readers;
pub mod record_log;
pub mod records_meta;
pub mod state_index;
pub mod wal;
use vstd::prelude::*;

verus! {

/// Current format version of every file: logical name, magic bytes, version.
pub const CURRENT_VERSIONS: [(&'static str, [u8; 4], u8); 7] = [
    ("manifest", manifest::MAGIC, manifest::VERSION),
    ("record_log", record_log::MAGIC, record_log::VERSION),
    ("blob", blob::MAGIC, blob::VERSION),
    ("wal", wal::MAGIC, wal::VERSION),
    ("state_index", state_index::MAGIC, state_index::VERSION),
    ("branch_index", branch_index::MAGIC, branch_index::VERSION),
    ("records_meta", records_meta::MAGIC, records_meta::VERSION),
];

} // verus!
