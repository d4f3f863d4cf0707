[package]
name = "partial_json_fixer"
version = "0.1.0"
edition = "2021"
publish = false

[dependencies]
pyo3 = "0.22"

[dev-dependencies]
serde_json = "1"
