[package]
name = "hilbert_prop_logic"
version = "0.1.0"
edition = "2021"
publish = false

[dependencies]
rand = "0.8"
pyo3 = { version = "0.20", features = ["abi3-py37"] }
numpy = "0.20"
ndarray = "0.15"
adjustp = "*"
