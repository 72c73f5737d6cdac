[package]
name = "edgehop"
version = "0.1.0"
edition = "2021"
publish = false

[dependencies]
anyhow = "1"
clap = { version = "4", features = ["derive"] }
core-graphics = "*"
env_logger = "0.11"
hidapi = "2"
log = "0.4"
serde = { version = "1", features = ["derive"] }
thiserror = "2"
toml = "0.8"
