[package]
name = "sastran"
version = "0.2.0"
edition = "2021"
publish = false

[dependencies]
crc32fast = "1"
xxhash-rust = { version = "0.8", features = ["xxh3"] }
rand = { version = "0.8", features = ["small_rng"] }
thiserror = "1"
tracing = "0.1"
