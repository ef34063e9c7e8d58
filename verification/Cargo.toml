[package]
name = "sp_matmul_rs"
version = "0.2.1"
edition = "2021"
publish = false

[dependencies]
cache-size = "*"
num-traits = "0.2"
rayon = "1"
thiserror = "2"
pyo3 = { version = "0.26", features = ["extension-module", "abi3-py39"] }
numpy = "0.26"
