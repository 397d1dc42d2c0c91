[package]
name = "live_translate"
version = "0.1.0"
edition = "2021"
publish = false

[dependencies]
anyhow = "=1.0.104"
base64 = "=0.22.1"
cpal = "=0.18.2"
futures-util = "=0.3.34"
keyring = { version = "=3.6.3", features = ["apple-native", "windows-native"] }
reqwest = { version = "=0.12.28", default-features = false, features = ["json", "stream"] }
serde = { version = "=1.0.229", features = ["derive"] }
serde_json = "=1.0.154"
thiserror = "=2.0.21"
tokio = { version = "=1.54.1", features = ["full"] }
tokio-tungstenite = "=0.28.0"
tokio-util = "=0.7.20"
tracing = "=0.1.44"
tracing-appender = "=0.2.5"
tracing-subscriber = { version = "=0.3.23", features = ["env-filter"] }
voice_activity_detector = "=0.2.1"
