[package]
name = "kv_store"
version = "0.1.0"
edition = "2021"
publish = false

[dependencies]
sha2 = "*"
sled = "*"
chrono = "*"
serde = { version = "*", features = ["derive"] }
tokio = { version = "*", features = ["full"] }
axum = "*"
jsonwebtoken = "*"
dotenv = "*"
metrics = "*"
metrics-exporter-prometheus = { version = "*", default-features = false }
once_cell = "*"
sysinfo = "*"
tower-http = { version = "*", features = ["trace"] }
tracing-subscriber = "*"
