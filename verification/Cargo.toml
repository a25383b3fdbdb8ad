[package]
name = "datasketch_minhash_lsh"
version = "0.1.0"
edition = "2021"
publish = false

[dependencies]
rand = { version = "0.8", features = ["small_rng"] }
quadrature = "0.1"
float-cmp = "0.9"
