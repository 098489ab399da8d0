[package]
name = "chronicle"
version = "0.1.0"
edition = "2021"
publish = false

[dependencies]
blake3 = "1"
crc32fast = "1"
crossbeam-channel = "0.5"
fs2 = "0.4"
hex = "0.4"
lru = "0.12"
napi = { version = "2", features = ["serde-json"] }
napi-derive = "2"
parking_lot = "0.12"
rmp-serde = "1"
serde = { version = "1", features = ["derive"] }
serde_json = "1"
thiserror = "1"

[dev-dependencies]
tempfile = "3"
