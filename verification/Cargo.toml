[package]
name = "model_dist"
version = "0.1.0"
edition = "2021"
publish = false

[dependencies]
anyhow = "1"
bitvec = "1"
bytes = "1"
clap = { version = "4", features = ["derive"] }
dashmap = "5"
hex = "0.4"
metrics = "0.21"
metrics-exporter-prometheus = { version = "0.12", default-features = false, features = ["http-listener"] }
parking_lot = "0.12"
reed-solomon-erasure = "6"
reqwest = { version = "0.11", default-features = false }
serde = { version = "1", features = ["derive"] }
serde_json = "1"
sha2 = "0.10"
thiserror = "1"
tokio = { version = "1", features = ["full"] }
tracing = "0.1"
tracing-subscriber = { version = "0.3", features = ["env-filter", "fmt"] }
uuid = { version = "1", features = ["v4"] }
