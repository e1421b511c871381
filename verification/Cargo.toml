[package]
name = "ccproject"
version = "0.1.0"
edition = "2021"
publish = false

[dependencies]
base64 = "=0.21.7"
flate2 = "=1.1.10"
num = "=0.4.3"
sha256 = "=1.6.0"
substring = "=1.4.5"
serde = { version = "=1.0.229", features = ["derive"] }
serde_json = "=1.0.154"
axum = "=0.7.9"
tokio = { version = "=1.54.1", features = ["full"] }
tracing-subscriber = "=0.3.23"
ntex = { version = "2", features = ["tokio"] }
reqwest = { version = "=0.11.27", features = ["json"] }
sqlx = { version = "=0.7.4", features = ["mysql", "runtime-tokio"] }
chrono = "=0.4.45"
