[package]
name = "composer"
version = "0.1.0"
edition = "2021"
publish = false

[dependencies]
libc = "*"
crossbeam-utils = "*"
lazy_static = "*"
log = "*"
env_logger = "*"
clap = "*"
subprocess = "*"
serde = { version = "*", features = ["derive"] }
serde_json = "*"
