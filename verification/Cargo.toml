[package]
name = "cavey"
version = "0.1.0"
edition = "2021"
publish = false

[dependencies]
bincode = "1"
byteorder = "1"
serde_json = "1"
serde = { version = "1", features = ["derive"] }
sled = "0.34"
structopt = "0.3"
failure = "0.1"
env_logger = "0.9"
log = "0.4"
