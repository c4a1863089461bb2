[package]
name = "transaction_oxidizer"
version = "0.1.0"
edition = "2021"
publish = false

[dependencies]
anyhow = "*"
csv = "*"
env_logger = "*"
log = "*"
serde = { version = "*", features = ["derive"] }
