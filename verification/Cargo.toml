[package]
name = "jamyx"
version = "0.1.0"
edition = "2021"
publish = false

[dependencies]
jack = "*"
serde = { version = "*", features = ["derive"] }
serde_json = "*"
