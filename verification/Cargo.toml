[package]
name = "biscuit_token"
version = "0.1.0"
edition = "2021"
publish = false

[dependencies]
biscuit-auth = "=6.0.0"
ed25519-dalek = "=2.2.0"
rand = "=0.8.8"
serde = { version = "1", features = ["derive"] }
