[package]
name = "better_blockmap"
version = "0.1.0"
edition = "2021"
publish = false

[dependencies]
base64 = "*"
blake2 = "*"
byteorder = "*"
clap = { version = "*", features = ["derive"] }
flate2 = "*"
serde = { version = "*", features = ["derive"] }
serde_json = "*"
