[package]
name = "flp_vault"
version = "0.1.0"
edition = "2021"
publish = false

[dependencies]
xxhash-rust = { version = "*", features = ["xxh3"] }
uuid = { version = "*", features = ["v4"] }
dirs = "*"
serde_json = "*"
serde = { version = "*", features = ["derive"] }
rusqlite = { version = "*", features = ["bundled"] }
walkdir = "*"
chrono = "*"
trigram = "*"
