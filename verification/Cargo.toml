[package]
name = "chunkstore"
version = "0.3.0"
edition = "2021"
publish = false

[dependencies]
sha2 = "=0.10.9"
fastcdc = "=3.2.1"
serde = { version = "=1.0.229", features = ["derive"] }
serde_json = "=1.0.154"
thiserror = "=2.0.21"
pyo3 = "*"
