[package]
name = "edge-analytics"
version = "0.1.0"
edition = "2021"
publish = false

[dependencies]
aws-config = "1"
aws-sdk-dynamodb = "1"
axum = "0.8"
futures-util = "0.3"
quick-xml = "0.37"
reqwest = { version = "0.12", default-features = false, features = ["rustls-tls", "stream"] }
serde = { version = "1", features = ["derive"] }
serde_json = "1"
tokio = { version = "1", features = ["macros", "net", "rt-multi-thread", "signal", "time"] }
tower = { version = "0.5", features = ["limit"] }
tower-http = { version = "0.6", features = ["cors", "timeout"] }
tracing = "0.1"
tracing-subscriber = "0.3"
