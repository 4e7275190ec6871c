[package]
name = "atomic_swap"
version = "0.1.0"
edition = "2021"
publish = false

[dependencies]
hex = "0.4"
num-bigint = "0.4"
num-traits = "0.2"
rand = "*"
secp256k1 = { version = "*", features = ["rand"] }
bitcoin_hashes = "*"
