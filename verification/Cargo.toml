[package]
name = "toon"
version = "0.1.0"
edition = "2021"
publish = false

[dependencies]
serde_json = { version = "=1.0.151", features = ["float_roundtrip"] }
anyhow = "=1.0.104"
clap = { version = "=4.6.7", features = ["derive"] }
