[package]
name = "bft_engine"
version = "0.2.0"
edition = "2021"
publish = false

[dependencies]
bincode = "1.3"
bytes = "1"
clap = { version = "4", features = ["derive"] }
crc32fast = "1"
ed25519-dalek = { version = "2", features = ["rand_core"] }
rand = "0.8"
tokio = { version = "1", features = ["full"] }
tokio-util = "0.7"
tracing = "0.1"
tracing-subscriber = { version = "0.3", features = ["env-filter"] }
