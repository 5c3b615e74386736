[package]
name = "nomai_core"
version = "0.1.0"
edition = "2021"

[dependencies]
blake3 = "1"
chrono = { version = "0.4", features = ["serde"] }
refinery = { version = "*", features = ["rusqlite"] }
rusqlite = { version = "*", features = ["bundled"] }
serde = { version = "1", features = ["derive"] }
serde_json = "1"
sqlite-vec = "*"
tempfile = "3"
thiserror = "*"
ulid = { version = "1", features = ["serde"] }
