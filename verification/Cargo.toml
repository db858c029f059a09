[package]
name = "rustor"
version = "0.1.0"
edition = "2021"
publish = false

[dependencies]
uuid = { version = "*", features = ["v5"] }
serde = { version = "*", features = ["derive"] }
serde_json = "*"
clap = "*"
log = "*"
env_logger = "*"
