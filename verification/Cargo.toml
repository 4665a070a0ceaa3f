[package]
name = "persistent_queue"
version = "0.1.0"
edition = "2021"
publish = false

[dependencies]
serde = { version = "1", features = ["derive"] }
bincode = "1"
rkyv = "0.8"
sled = "0.34"
redb = "2"
tokio = { version = "1", features = ["rt", "rt-multi-thread", "sync"] }
