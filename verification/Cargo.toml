[package]
name = "kanban"
version = "0.1.0"
edition = "2021"
publish = false

[dependencies]
axum = "=0.6.20"
bson = "=2.15.0"
chrono = { version = "=0.4.45", features = ["serde"] }
clap = { version = "=4.6.7", features = ["derive"] }
futures = "=0.3.34"
mongodb = "=2.8.2"
serde = { version = "=1.0.229", features = ["derive"] }
tokio = { version = "=1.53.2", features = ["full"] }
tower-http = { version = "=0.4.4", features = ["cors", "trace"] }
tracing = "=0.1.44"
tracing-subscriber = "=0.3.23"
uuid = { version = "=1.27.0", features = ["v4", "serde"] }
