[package]
name = "armake"
version = "0.1.0"
edition = "2021"
publish = false

[dependencies]
byteorder = "1"
linked-hash-map = "0.5"
openssl = "0.10"
