[package]
name = "soliddb"
version = "0.1.0"
edition = "2021"
publish = false

[dependencies]
rocksdb = "*"
ulid = "*"
serde = { version = "*", features = ["derive"] }
ron = "*"
thiserror = "*"
