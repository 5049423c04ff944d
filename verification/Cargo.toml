[package]
name = "matchmaking"
version = "0.1.0"
edition = "2021"
publish = false

[dependencies]
axum = "=0.7.9"
tokio = { version = "=1.54.1", features = ["full"] }
parking_lot = "=0.12.5"
serde = { version = "=1.0.229", features = ["derive"] }
serde_json = "=1.0.154"
tracing = "=0.1.44"
tracing-subscriber = { version = "=0.3.23", features = ["env-filter"] }
uuid = { version = "=1.29.0", features = ["v4"] }
getrandom = "=0.4.3"
