[package]
name = "loader_rs"
version = "0.1.0"
edition = "2021"
publish = false

[dependencies]
url = "2"
parking_lot = "0.12"
serde_json = "1"
serde_yaml = "0.9"
reqwest = { version = "0.12", default-features = false, features = ["blocking"] }

[dev-dependencies]
mockito = "1"
