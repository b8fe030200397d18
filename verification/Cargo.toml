[package]
name = "monero_ringct"
version = "0.1.0"
edition = "2021"
publish = false

[dependencies]
curve25519-dalek = "*"
rand_core = "*"
rand_distr = "*"
futures = "*"
zeroize = "*"
