[package]
name = "statediff"
version = "0.1.0"
edition = "2021"
publish = false

[dependencies]
serde_json = "=1.0.151"
tokio = { version = "=1.53.2", features = ["rt-multi-thread", "macros", "net", "time"] }
tokio-postgres = { version = "=0.7.18", features = ["with-serde_json-1"] }
tokio-tungstenite = "=0.30.0"
url = "=2.5.8"
futures = "=0.3.34"
