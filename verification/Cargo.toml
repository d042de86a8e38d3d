[package]
name = "autolink"
version = "0.1.0"
edition = "2021"
publish = false

[dependencies]
serde_yaml = "*"
rand = "*"
comrak = "*"
glob = "*"
anyhow = "*"
clap = { version = "*", features = ["derive"] }
env_logger = "*"
log = "*"
