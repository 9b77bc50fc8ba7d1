[package]
name = "kv_graph"
version = "0.1.0"
edition = "2021"
publish = false

[dependencies]
crc32fast = "1"
scylla = "1"
tokio = { version = "1", features = ["full"] }
clap = { version = "4", features = ["derive"] }
