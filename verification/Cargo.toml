[package]
name = "kvstore"
version = "0.1.0"
edition = "2021"
publish = false

[dependencies]
memcache = { version = "*", default-features = false }
serde = { version = "1", features = ["derive"] }
serde_json = "1"
chrono = "*"
config = "*"
