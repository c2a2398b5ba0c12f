[package]
name = "hft_engine"
version = "0.1.0"
edition = "2021"
publish = false

[dependencies]
rand = { version = "0.8", features = ["small_rng"] }
crossbeam-channel = "0.5"
