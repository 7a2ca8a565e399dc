[package]
name = "crustydb"
version = "0.1.0"
edition = "2021"
publish = false

[dependencies]
serde = { version = "1", features = ["derive"] }
serde_cbor = "0.11"

[dev-dependencies]
rand = "0.8"
