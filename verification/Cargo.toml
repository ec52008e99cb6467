[package]
name = "quompressor"
version = "0.1.0"
edition = "2021"
publish = false

[dependencies]
bitvec = "1"
clap = "2.34"
image = { version = "0.24", default-features = false, features = ["png", "jpeg"] }
pyo3 = "0.20"
