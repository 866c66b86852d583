[package]
name = "rust_leo_sim"
version = "0.1.0"
edition = "2021"
publish = false

[dependencies]
anyhow = "*"
chrono = "*"
nalgebra = "*"
pyo3 = "*"
rayon = "*"
satkit = "*"
zstd = "*"
