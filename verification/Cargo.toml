[package]
name = "baker"
version = "0.1.0"
edition = "2021"
publish = false

[dependencies]
jpeg-encoder = "=0.6.1"
png = "=0.18.1"
anyhow = "=1.0.104"
clap = { version = "=4.6.7", features = ["derive"] }
serde = { version = "=1.0.229", features = ["derive"] }
serde_json = "=1.0.154"
toml = "=0.8.23"
sha2 = "=0.10.9"
camino = "=1.2.6"
uniffi_bindgen = "0.29"
