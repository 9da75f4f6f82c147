[package]
name = "siderust_pod"
version = "0.1.0"
edition = "2021"
publish = false

[dependencies]
chrono = "=0.4.45"
serde = { version = "=1.0.229", features = ["derive"] }
serde_json = "=1.0.154"
thiserror = "=1.0.69"
qtty = "=0.8.6"
qtty-core = "=0.8.6"
tempoch = "=0.11.2"
affn = "=0.12.1"
cheby = "=0.4.2"
siderust = "=0.18.1"
parquet = { version = "=60.1.0", default-features = false }
sgp4 = "=2.4.0"
