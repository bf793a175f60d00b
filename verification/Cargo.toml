[package]
name = "thor_cluster"
version = "0.1.0"
edition = "2021"
publish = false

[dependencies]
kiddo = "2"
fixed = "1"
rstar = "*"
ordered-float = "*"
core_affinity = "*"
log = "*"
pyo3 = "*"
pyo3-log = "*"
arrow = { version = "*", features = ["pyarrow"] }
