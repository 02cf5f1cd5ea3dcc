[package]
name = "degenbot_rs"
version = "0.1.0"
edition = "2021"
publish = false

[dependencies]
alloy-primitives = "=1.7.3"
num-bigint = "=0.4.8"
pyo3 = { version = "=0.30.1", features = ["num-bigint"] }
rayon = "=1.12.0"
thiserror = "=2.0.21"
