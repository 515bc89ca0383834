[package]
name = "sd_core"
version = "0.1.0"
edition = "2021"
publish = false

[dependencies]
globset = "=0.4.21"
serde = { version = "=1.0.229", features = ["derive"] }
serde_json = "=1.0.154"
uuid = { version = "=1.29.0", features = ["serde", "v4"] }
tokio = { version = "=1.54.1", features = ["fs", "rt"] }
thiserror = "=1.0.69"
tracing = "=0.1.44"
chrono = { version = "0.4", default-features = false, features = ["serde", "std", "clock"] }
