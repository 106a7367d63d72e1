[package]
name = "defiads"
version = "0.1.0"
edition = "2021"
publish = false

[dependencies]
snap = "*"
siphasher = "*"
bitcoin_hashes = "*"
serde = { version = "*", features = ["derive"] }
