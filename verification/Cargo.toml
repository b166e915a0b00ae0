[package]
name = "tcp_forwarder"
version = "0.2.8"
edition = "2021"
publish = false

[dependencies]
anyhow = "1"
arc-swap = "1"
async-stream = "0.3"
axum = "=0.7.9"
chrono = { version = "=0.4.45", features = ["serde"] }
config = { version = "0.14", default-features = false, features = ["yaml"] }
dashmap = "=5.5.3"
futures = "0.3"
humantime-serde = "1"
indicatif = "0.17"
ipnet = { version = "=2.12.2", features = ["serde"] }
ipnetwork = "=0.20.0"
metrics = "=0.21.1"
metrics-exporter-prometheus = { version = "=0.12.2", default-features = false }
parking_lot = "0.12"
rand = "=0.8.8"
rayon = "=1.12.0"
reqwest = { version = "=0.12.28", default-features = false, features = ["rustls-tls"] }
serde = { version = "1", features = ["derive"] }
serde_json = "1"
socket2 = { version = "0.5", features = ["all"] }
thiserror = "1"
tokio = { version = "1", features = ["full"] }
tokio-util = "0.7"
tower = "0.4"
tower-http = { version = "0.5", features = ["cors"] }
tracing = "0.1"
tracing-subscriber = { version = "0.3", features = ["env-filter", "json"] }
