[package]
name = "nanobook"
version = "0.4.0"
edition = "2021"
publish = false

[dependencies]
pyo3 = "0.23"
rayon = "1"
