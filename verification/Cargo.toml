[package]
name = "shard_core"
version = "0.1.0"
edition = "2021"
publish = false

[dependencies]
bitpacking = "0.9"
serde = { version = "1", features = ["derive"] }
serde_json = "1"
atomicwrites = "0.4"
thiserror = "1"
log = "0.4"
