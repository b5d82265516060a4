[package]
name = "vote_view"
version = "0.1.0"
edition = "2021"
publish = false

[dependencies]
solana-vote-interface = { version = "=6.1.0", features = ["serde", "bincode"] }
solana-sdk-ids = "=3.1.0"
solana-bincode = "=3.1.0"

[dev-dependencies]
bincode = "=1.3.3"
