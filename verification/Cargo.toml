[package]
name = "garbled_circuits"
version = "0.1.0"
edition = "2021"
publish = false

[dependencies]
aes = "0.7"
rand = "0.8"
sha2 = "0.10"
