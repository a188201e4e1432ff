[package]
name = "bitcodec"
version = "0.1.0"
edition = "2021"

[dependencies]
num-traits = "0.2"

[dev-dependencies]
rand = { version = "0.8", features = ["small_rng"] }
