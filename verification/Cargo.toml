[package]
name = "yasc"
version = "0.1.0"
edition = "2021"
publish = false

[dependencies]
hex2d = "*"
serde = { version = "1", features = ["derive"] }
serde_yaml = "*"
chrono = { version = "0.4", features = ["serde"] }
