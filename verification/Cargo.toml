[package]
name = "wondfs"
version = "0.1.0"
edition = "2021"
publish = false

[dependencies]
libc = "0.2"
log = "0.4"
env_logger = "0.10"
fuser = { version = "0.11", default-features = false }
