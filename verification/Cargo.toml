[package]
name = "miner_core"
version = "0.1.0"
edition = "2021"
publish = false

[dependencies]
rustc-hex = "1.0"
serde = { version = "1", features = ["derive"] }
serde_json = "1"
jsonrpc-core = "14"
