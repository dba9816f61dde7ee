[package]
name = "market_making"
version = "0.1.0"
edition = "2021"
publish = false

[dependencies]
base64 = "0.22"
chrono = "0.4"
hmac = "0.12"
sha2 = "0.10"
rust_decimal = "1"
serde = { version = "1", features = ["derive"] }
serde_json = "1"
tokio = { version = "1", features = ["full"] }
tokio-tungstenite = { version = "0.26", features = ["native-tls"] }
futures-util = "0.3"
reqwest = "0.12"
figment = { version = "0.10", features = ["toml"] }
clap = { version = "4", features = ["cargo"] }
tracing = "0.1"
console-subscriber = "0.4"
