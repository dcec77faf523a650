[package]
name = "gossip_lib"
version = "0.1.0"
edition = "2021"
publish = false

[dependencies]
dashmap = "5"
gossip-relay-picker = "*"
lazy_static = "1"
nostr-types = "*"
parking_lot = "0.12"
regex = "1"
rhai = "1"
tokio = { version = "1", features = ["sync"] }
tracing = "0.1"
