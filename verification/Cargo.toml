[package]
name = "mirror-v3"
version = "0.1.0"
edition = "2021"
publish = false

[dependencies]
anyhow = "=1.0.104"
arrow = { version = "=60.1.0", default-features = false }
async-trait = "=0.1.92"
axum = "=0.8.9"
base64 = "=0.22.1"
bytes = "=1.12.1"
clap = { version = "=4.6.7", features = ["derive"] }
futures = { version = "=0.3.34", default-features = false, features = ["std"] }
indexmap = "=2.14.2"
metrics = "=0.24.6"
metrics-exporter-prometheus = { version = "=0.18.3", default-features = false, features = ["http-listener"] }
object_store = { version = "=0.14.2", default-features = false, features = ["aws"] }
parquet = { version = "=60.1.0", default-features = false, features = ["arrow", "snap", "lz4", "zstd"] }
rdkafka = "=0.39.0"
schemars = "=1.2.3"
serde = { version = "=1.0.229", features = ["derive"] }
serde_json = { version = "=1.0.154", features = ["preserve_order"] }
serde_yaml = "=0.9.34+deprecated"
thiserror = "=2.0.21"
tokio = { version = "=1.54.1", features = ["rt-multi-thread", "macros", "time", "sync", "signal", "net", "fs", "io-util"] }
tracing = "=0.1.44"
tracing-subscriber = { version = "=0.3.23", features = ["env-filter"] }
url = "=2.5.8"
utoipa = { version = "=5.5.0" }
utoipa-axum = "=0.2.0"
utoipa-scalar = { version = "=0.3.0", features = ["axum"] }
uuid = { version = "=1.29.0", features = ["v4"] }
