[package]
name = "tile3d"
version = "0.1.0"
edition = "2021"
publish = false

[dependencies]
serde = { version = "*", features = ["derive"] }
serde_json = "*"
serde-xml-rs = "*"
clap = "*"
env_logger = "*"
log = "*"
chrono = "*"
libc = "*"
rayon = "*"
byteorder = "*"
