[package]
name = "monero_core"
version = "0.1.0"
edition = "2021"
publish = false

[dependencies]
curve25519-dalek = "=4.1.3"
rand = "=0.8.8"
sha3 = "=0.10.9"
