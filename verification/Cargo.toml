[package]
name = "subset_sum_zk"
version = "0.1.0"
edition = "2021"
publish = false

[dependencies]
blake2b_simd = "0.5"
rand = "0.7"
