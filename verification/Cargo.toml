[package]
name = "rust_store"
version = "0.1.0"
edition = "2021"
publish = false

[dependencies]
crossbeam-skiplist = "0.1"
flate2 = "1"
bit-vec = "0.6"
seahash = "4"
rand = "0.8"
rand_chacha = "0.3"
rand_distr = "0.4"
