[package]
name = "phash_pipeline"
version = "0.1.0"
edition = "2021"
publish = false

[dependencies]
anyhow = "1"
clap = { version = "4", features = ["derive"] }
image = "0.24"
indicatif = { version = "0.17", features = ["rayon"] }
nalgebra = "0.32"
rayon = "1"
