[package]
name = "ray_tracing"
version = "0.1.0"
edition = "2021"
publish = false

[dependencies]
once_cell = "1"
rand = { version = "0.8", features = ["small_rng"] }
