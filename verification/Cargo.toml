[package]
name = "wes_sfu"
version = "0.1.0"
edition = "2021"
publish = false

[dependencies]
rand = "*"
tokio = { version = "*", features = ["full"] }
clap = { version = "*", features = ["derive"] }
crossterm = "*"
log = "*"
env_logger = "*"
