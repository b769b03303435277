[package]
name = "shared_hashmap"
version = "0.1.0"
edition = "2021"
publish = false

[dependencies]
bincode = "1.3"
serde = { version = "1", features = ["derive"] }
shared_memory = "0.12"
raw_sync = "0.1"
