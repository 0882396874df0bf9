[package]
name = "fastlap"
version = "0.1.0"
edition = "2021"
publish = false

[dependencies]
sprs = "0.11"
rayon = "1"
pyo3 = "0.22"
numpy = "0.22"
