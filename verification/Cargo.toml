[package]
name = "fri"
version = "0.1.0"
edition = "2021"
publish = false

[dependencies]
bincode = "1.3"
blake3 = { version = "1", default-features = false, features = ["pure"] }
rusty-leveldb = "1"
serde = "1"
