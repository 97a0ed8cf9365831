[package]
name = "pip_engine"
version = "0.1.0"
edition = "2021"
publish = false

[dependencies]
geojson = "*"
serde = { version = "*", features = ["derive"] }
serde_json = "*"
