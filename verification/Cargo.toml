[package]
name = "running_average"
version = "0.1.0"
edition = "2021"
publish = false

[dependencies]
zenoh = { version = "*", default-features = false }
async-std = { version = "1", features = ["attributes"] }
clap = "3"
env_logger = "*"
futures = "0.3"
rand = "0.8"
serde = { version = "1", features = ["derive"] }
serde_json = "1"
