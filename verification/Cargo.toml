[package]
name = "treeboost"
version = "0.1.0"
edition = "2021"
publish = false

[dependencies]
rand = "=0.8.8"
rayon = "=1.12.0"
serde = { version = "=1.0.229", features = ["derive"] }
serde_json = "=1.0.154"
csv = "=1.4.0"
chrono = { version = "=0.4.45", default-features = false, features = ["clock"] }
tdigest = "=0.2.3"
rkyv = "0.8"
polars = { version = "=0.46.0", default-features = false, features = ["fmt_no_tty"] }
pyo3 = { version = "=0.23.5", features = ["abi3-py38"] }
numpy = "=0.23.0"
