[package]
name = "pamly"
version = "0.1.0"
edition = "2021"
publish = false

[dependencies]
anyhow = "1"
clap = { version = "4", features = ["derive"] }
image = { version = "0.24", default-features = false, features = ["jpeg"] }
imageproc = { version = "0.23", default-features = false }
libc = "0.2"
log = "0.4"
serde = { version = "1", features = ["derive"] }
serde_json = "1"
simple_logger = "*"
sqlite = "*"
