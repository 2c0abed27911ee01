[package]
name = "gkr_sumcheck"
version = "0.1.0"
edition = "2021"
publish = false

[dependencies]
ark-bn254 = "0.5"
ark-ff = "0.5"
sha3 = "0.10"
rand = "0.8"
