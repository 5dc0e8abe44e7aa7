[package]
name = "wiremocket"
version = "0.3.1"
edition = "2021"
publish = false

[dependencies]
async-stream = "0.3"
axum = { version = "0.8", features = ["ws"] }
deadpool = "0.12"
futures = "0.3"
futures-util = "0.3"
pin-project-lite = "0.2"
serde_json = "1"
tokio = { version = "1", features = ["full"] }
tokio-stream = { version = "0.1", features = ["sync"] }
tokio-tungstenite = "0.28"
tracing = "0.1"
tungstenite = "0.28"
