[package]
name = "sumcheck_gkr"
version = "0.1.0"
edition = "2021"
publish = false

[dependencies]
ark-ff = "0.4"
ark-bn254 = "0.4"
ark-std = "0.4"
rand = "0.8"
sha3 = "0.10"
