[package]
name = "beacon_chain_indexer"
version = "0.1.0"
edition = "2021"
publish = false

[dependencies]
num-bigint = "0.4"
num-traits = "0.2"
serde = { version = "1", features = ["derive"] }
serde_json = "1"
reqwest = { version = "0.11", default-features = false }
tokio = { version = "1", features = ["rt", "rt-multi-thread", "time", "macros"] }
tokio-postgres = "0.7"
actix-web = "4"
actix-rt = "2"
env_logger = "0.10"
