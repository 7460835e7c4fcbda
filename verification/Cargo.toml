[package]
name = "niimprint-rs"
version = "0.1.0"
edition = "2021"
publish = false

[dependencies]
clap = { version = "4", features = ["derive"] }
env_logger = "0.11"
image = { version = "0.25", default-features = false, features = ["png", "jpeg", "bmp"] }
libc = "0.2"
log = "0.4"
serialport = { version = "4", default-features = false }
