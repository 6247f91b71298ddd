[package]
name = "bittorrent"
version = "0.1.0"
edition = "2021"
publish = false

[dependencies]
bit-vec = "*"
byteorder = "1"
priority-queue = "*"
sha1 = "*"
hex = "*"
rand = "*"
url = "*"
serde = { version = "1", features = ["derive"] }
log = "*"
env_logger = "*"
hyper = "0.11"
tokio-core = "0.1"
futures = "0.1"
