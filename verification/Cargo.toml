[package]
name = "bschema"
version = "0.1.0"
edition = "2021"
publish = false

[dependencies]
oxigraph = { version = "0.5", default-features = false }
rayon = "1"
thiserror = "2"
pyo3 = "*"
