[package]
name = "orchestrator_core"
version = "0.1.0"
edition = "2021"
publish = false

[dependencies]
sha2 = "0.10"
uuid = { version = "1", features = ["v4", "serde"] }
chrono = { version = "0.4", features = ["serde"] }
rand = "0.8"
rusqlite = { version = "0.31", features = ["bundled"] }
serde = { version = "1", features = ["derive"] }
serde_json = "1"
thiserror = "1"
tokio = { version = "1", features = ["full"] }
tracing = "0.1"
notify = "6"
axum = { version = "0.7", features = ["ws"] }
hyper-util = { version = "0.1", features = ["client", "client-legacy", "http1", "tokio"] }
tower-http = { version = "0.5", features = ["cors"] }
