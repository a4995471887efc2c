[package]
name = "iggy_engine"
version = "0.1.0"
edition = "2021"
publish = false

[dependencies]
bytes = "1"
atomic-time = "*"
uuid = { version = "1", features = ["v7"] }
tokio = { version = "1", features = ["time", "rt-multi-thread", "macros", "net", "sync"] }
axum = "0.8"
serde = { version = "1", features = ["derive"] }
clap = { version = "4", features = ["derive"] }
anyhow = "1"
tracing = "0.1"
tracing-subscriber = "0.3"
