[package]
name = "cielo"
version = "0.1.0"
edition = "2021"
publish = false

[dependencies]
blake3 = "1"
bincode = "1.3"
serde = { version = "1", features = ["derive"] }
