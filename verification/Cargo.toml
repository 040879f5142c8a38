[package]
name = "vocab_srs"
version = "0.1.0"
edition = "2021"
publish = false

[dependencies]
anyhow = "*"
chrono = "*"
clap = { version = "*", features = ["derive"] }
colored = "*"
inquire = "*"
log = "*"
serde = { version = "*", features = ["derive"] }
serde_json = "*"
