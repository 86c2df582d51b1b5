[package]
name = "lifespeed"
version = "0.1.0"
edition = "2021"
publish = false

[dependencies]
base64 = "0.22"
serde = { version = "1", features = ["derive"] }
tokio = { version = "1", features = ["sync"] }
log = "0.4"
env_logger = "0.11"
