[package]
name = "tust"
version = "0.1.0"
edition = "2021"
publish = false

[dependencies]
clap = { version = "*", features = ["derive"] }
colored = "*"
env_logger = "*"
log = "*"
tempfile = "*"
tokio = { version = "*", features = ["rt-multi-thread", "macros"] }
