[package]
name = "dslab"
version = "0.1.0"
edition = "2021"
publish = false

[dependencies]
serde = { version = "*", features = ["derive"] }
serde_yaml = "*"

[dev-dependencies]
rand = "*"
