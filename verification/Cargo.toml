[package]
name = "ray_tracer"
version = "0.1.0"
edition = "2021"
publish = false

[dependencies]
sha3 = "0.9"
flate2 = "1"
yaml-rust = "0.4"
clap = "2"
bincode = "1"
serde = { version = "1", features = ["derive"] }
rayon = "1"
rand = { version = "0.8", features = ["small_rng"] }
float-cmp = "0.8"
atomic-counter = "1"
jemallocator = "0.3"
