[package]
name = "nonogram"
version = "0.1.0"
edition = "2021"
publish = false

[dependencies]
itertools = "*"
serde = { version = "*", features = ["derive"] }
serde_json = "*"
