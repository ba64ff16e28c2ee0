[package]
name = "gaussmatrix"
version = "0.1.0"
edition = "2021"
publish = false

[dependencies]
base64 = "=0.22.1"
sha2 = "=0.10.9"
serde_json = { version = "=1.0.154", features = ["raw_value"] }
regex = "=1.13.1"
