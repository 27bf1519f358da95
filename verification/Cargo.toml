[package]
name = "chunkstore"
version = "0.1.0"
edition = "2021"
publish = false

[dependencies]
base64 = "*"
uuid = { version = "*", features = ["v4"] }
byte-unit = "*"
fs_extra = "*"
