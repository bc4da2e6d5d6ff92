[package]
name = "infotheory"
version = "0.1.0"
edition = "2021"
publish = false

[dependencies]
ahash = "0.8"
anyhow = "1"
crc32fast = "1"
rayon = "1"
serde_json = "1"
wide = "*"
zpaq_rs = "*"
