[package]
name = "permuta_rs"
version = "0.1.0"
edition = "2021"
publish = false

[dependencies]
indexmap = "*"
pyo3 = "*"
rayon = "*"
