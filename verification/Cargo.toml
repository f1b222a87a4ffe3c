[package]
name = "quip_miner_cpu"
version = "0.1.0"
edition = "2021"
publish = false

[dependencies]
quip-solver-core = "0.0.4"
quip-proto = "0.0.4"
quip-protocol = "0.0.4"
rand = { version = "0.8", features = ["small_rng"] }
clap = { version = "4", features = ["derive"] }
crossbeam-channel = "0.5"
serde = { version = "1", features = ["derive"] }
serde_json = "1"
tokio = { version = "1", features = ["sync", "rt", "rt-multi-thread", "macros", "time"] }
toml = "0.8"
tracing = "0.1"
tracing-flame = "0.2"
tracing-subscriber = { version = "0.3", features = ["registry"] }
numpy = "0.28"
pyo3 = { version = "0.28", features = ["abi3-py39"] }
