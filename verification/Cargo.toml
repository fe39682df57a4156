[package]
name = "setreplace"
version = "0.1.0"
edition = "2021"
publish = false

[dependencies]
rayon = "1"
resvg = "0.45"
pyo3 = { version = "0.23", features = ["abi3-py39"] }
