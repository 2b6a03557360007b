[package]
name = "dupenukem"
version = "0.1.0"
edition = "2021"
publish = false

[dependencies]
chrono = "*"
clap = { version = "*", features = ["derive"] }
dirs = "*"
env_logger = "*"
inquire = "*"
log = "*"
pathdiff = "*"
sha2 = "*"
xxhash-rust = { version = "*", features = ["xxh3"] }
