[package]
name = "quiver_core"
version = "0.1.0"
edition = "2021"
publish = false

[dependencies]
axum = "=0.8.9"
byteorder = "=1.5.0"
crc32fast = "=1.5.4"
memmap2 = "=0.9.12"
pyo3 = { version = "=0.23.5", features = ["abi3-py39", "extension-module"] }
rand = "=0.9.5"
serde = { version = "=1.0.229", features = ["derive"] }
serde_json = "=1.0.154"
thiserror = "=2.0.21"
tokio = { version = "=1.54.1", features = ["full"] }
tracing = "=0.1.44"
tracing-subscriber = { version = "=0.3.23", features = ["env-filter", "json"] }
