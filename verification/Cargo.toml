[package]
name = "caryatid"
version = "0.1.0"
edition = "2021"
publish = false

[dependencies]
hex = "=0.4.3"
rand = "=0.8.8"
tokio = { version = "=1.54.1", features = ["full"] }
futures = "=0.3.34"
anyhow = "=1.0.104"
async-trait = "=0.1.92"
config = { version = "=0.14.1", default-features = false, features = ["toml"] }
serde = { version = "=1.0.229", features = ["derive"] }
serde_json = "=1.0.154"
serde_cbor = "=0.11.2"
tracing = "=0.1.44"
tracing-subscriber = "=0.3.23"
chrono = { version = "=0.4.45", features = ["serde"] }
axum = "=0.6.20"
hyper = { version = "=0.14.32", features = ["full"] }
lapin = "=2.5.5"
tokio-executor-trait = "=2.4.0"
dashmap = "=5.5.3"
libloading = "=0.8.9"
log = "=0.4.35"
buswatch-types = { version = "=0.1.0", features = ["serde"] }
