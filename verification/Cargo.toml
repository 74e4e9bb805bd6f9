[package]
name = "otel_ui_backend"
version = "0.1.0"
edition = "2021"
publish = false

[dependencies]
hex = "0.4"
anyhow = "1"
axum = { version = "0.8", features = ["ws"] }
clap = { version = "4", features = ["derive"] }
futures-util = "0.3"
opentelemetry-proto = { version = "*", features = ["gen-tonic", "trace"] }
serde = { version = "1", features = ["derive"] }
serde_json = "1"
tokio = { version = "1", features = ["full"] }
tonic = "*"
tower-http = { version = "*", features = ["cors"] }
tracing = "0.1"
tracing-subscriber = { version = "0.3", features = ["env-filter"] }
