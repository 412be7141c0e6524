[package]
name = "gubas_rs"
version = "0.1.0"
edition = "2021"
publish = false

[dependencies]
num-traits = "0.2"
pyo3 = "0.22"
