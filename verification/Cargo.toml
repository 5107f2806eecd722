[package]
name = "docstore"
version = "0.1.0"
edition = "2021"
publish = false

[dependencies]
hyper = "1"
http-body-util = "0.1"
serde = { version = "1", features = ["derive"] }
serde_json = "1"
rocksdb = { version = "*", default-features = false }
