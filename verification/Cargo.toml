[package]
name = "shadow_peer"
version = "0.1.0"
edition = "2021"
publish = false

[dependencies]
anyhow = "1"
async-std = "1"
clap = "2"
daemonize = "0.5"
futures = "0.3"
futures-timer = "3"
log = "0.4"
once_cell = "1"
serde = { version = "1", features = ["derive"] }
simplelog = "0.12"
thiserror = "1"
toml = "0.8"
