[package]
name = "rustfs"
version = "0.1.0"
edition = "2021"
publish = false

[dependencies]
bincode = "1.3"
serde = { version = "1", features = ["derive"] }
log = "0.4"
env_logger = "0.10"
fuser = { version = "0.14", default-features = false }
libc = "0.2"
