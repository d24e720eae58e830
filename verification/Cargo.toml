[package]
name = "liquify"
version = "0.1.0"
edition = "2021"
publish = false

[dependencies]
scrypto = "=1.3.1"
