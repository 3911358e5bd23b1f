[package]
name = "hnsw_core"
version = "0.1.0"
edition = "2021"
publish = false

[dependencies]
rand = "0.8"
itertools = "*"
serde_json = "1"
