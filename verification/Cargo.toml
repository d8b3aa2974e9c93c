[package]
name = "peer_ledger"
version = "0.1.0"
edition = "2021"
publish = false

[dependencies]
ed25519-dalek = "2"
hex = "0.4"
indexmap = "2"
serde = { version = "1", features = ["derive"] }
serde_json = "1"
sha2 = "0.10"
