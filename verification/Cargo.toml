[package]
name = "jcode_hashline"
version = "0.1.0"
edition = "2021"
publish = false

[dependencies]
anyhow = "1"
async-trait = "0.1"
serde = { version = "1", features = ["derive"] }
serde_json = "1"
similar = "2"
thiserror = "2"
tokio = { version = "1", features = ["fs", "rt"] }
xxhash-rust = { version = "0.8", features = ["xxh32"] }
