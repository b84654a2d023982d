[package]
name = "hashcash"
version = "0.1.0"
edition = "2021"
publish = false

[dependencies]
base64 = "=0.23.1"
sha2 = { version = "=0.10.9", features = ["asm"] }
reqwest = { version = "=0.13.5", default-features = false }
