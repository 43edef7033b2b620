[package]
name = "rbitcoin-store"
version = "0.1.0"
edition = "2021"
publish = false

[dependencies]
bitcoin_hashes = "0.14"
libc = "0.2"
