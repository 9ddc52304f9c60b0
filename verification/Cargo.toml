[package]
name = "deb2pg"
version = "0.1.0"
edition = "2021"
publish = false

[dependencies]
lz4 = "*"
sha2 = "*"
base32 = "*"
