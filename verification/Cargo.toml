[package]
name = "lddtopo"
version = "0.1.0"
edition = "2021"
publish = false

[dependencies]
petgraph = "0.6"
clap = { version = "3", features = ["derive"] }
env_logger = "*"
lddtree = "*"
log = "0.4"
serde = { version = "1", features = ["derive"] }
serde_json = "1"
