[package]
name = "rusty_crypto"
version = "0.1.0"
edition = "2021"
publish = false

[dependencies]
crypto-bigint = { version = "0.5", features = ["rand"] }
