[package]
name = "bllvm_consensus"
version = "0.1.0"
edition = "2021"
publish = false

[dependencies]
sha2 = "0.10"
ripemd = "0.1"
secp256k1 = "0.29"
lru = "0.12"
