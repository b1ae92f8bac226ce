[package]
name = "termvis"
version = "0.1.0"
edition = "2021"
publish = false

[dependencies]
flate2 = "1"
crossterm = "0.27"
pyo3 = { version = "0.22", features = ["extension-module"] }
opencv = "0.92"
