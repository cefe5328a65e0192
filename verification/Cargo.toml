[package]
name = "finales_funkeln"
version = "0.1.0"
edition = "2021"
publish = false

[dependencies]
rand = { version = "=0.8.8", features = ["small_rng"] }
rand_xoshiro = "=0.6.0"
rayon = "=1.12.0"
indicatif = "=0.18.6"
lazy_static = "=1.5.1"
