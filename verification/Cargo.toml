[package]
name = "layouts_rs"
version = "0.1.0"
edition = "2021"
publish = false

[dependencies]
rand = "=0.10.3"
clap = { version = "=4.6.7", features = ["derive"] }
log = "=0.4.35"
env_logger = "=0.11.11"
anyhow = "=1.0.104"
serde = { version = "=1.0.229", features = ["derive"] }
serde_json = "=1.0.154"
serde_yaml = "=0.9.34+deprecated"
indexmap = { version = "=2.14.2", features = ["serde"] }
