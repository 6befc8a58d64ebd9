[package]
name = "holo_proxy"
version = "0.1.0"
edition = "2021"
publish = false

[dependencies]
async-stream = "=0.3.6"
axum = "=0.8.9"
bytes = "=1.12.1"
chrono = "=0.4.45"
crossbeam-channel = "=0.5.17"
futures-util = "=0.3.34"
indexmap = { version = "=2.14.2", features = ["serde"] }
regex = "=1.13.1"
reqwest = { version = "=0.12.28", default-features = false, features = ["json", "stream", "rustls-tls"] }
serde = { version = "=1.0.229", features = ["derive"] }
serde_json = "=1.0.154"
tokio = { version = "=1.54.1", features = ["macros", "net", "rt", "sync", "time"] }
tracing = "=0.1.44"
tracing-appender = "=0.2.5"
tracing-subscriber = { version = "=0.3.23", features = ["env-filter", "local-time"] }
tray-icon = "=0.24.2"
uuid = { version = "=1.29.0", features = ["v4"] }
winit = "=0.30.13"
