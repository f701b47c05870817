[package]
name = "halo2_arithmetic"
version = "0.1.0"
edition = "2021"
publish = false

[dependencies]
csv = "1"
serde = { version = "1", features = ["derive"] }

[dev-dependencies]
rand_core = "0.6"
rand_chacha = "0.3"
