[package]
name = "cryptopals"
version = "0.1.0"
edition = "2021"
publish = false

[dependencies]
rust-crypto = "0.2"
rustc-serialize = "0.3"
rand = "0.3"
