[package]
name = "stir"
version = "0.1.0"
edition = "2021"
publish = false

[dependencies]
blake3 = "1"
sha3 = "0.10"
rand = "0.8"
