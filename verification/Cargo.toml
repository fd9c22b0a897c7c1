[package]
name = "wyag"
version = "0.1.0"
edition = "2021"
publish = false

[dependencies]
rust-crypto = "0.2"
flate2 = "1"
rust-ini = "*"
linked-hash-map = "0.5"
