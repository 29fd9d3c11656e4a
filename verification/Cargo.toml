[package]
name = "block_junk"
version = "0.1.0"
edition = "2021"
publish = false

[dependencies]
blake3 = "1"
bincode = { version = "2", features = ["serde"] }
serde = { version = "1", features = ["derive"] }
serde_json = "1"
thiserror = "2"
bevy = { version = "0.17", default-features = false }
