[package]
name = "gemini_lite"
version = "0.1.0"
edition = "2021"
publish = false

[dependencies]
anyhow = "1"
async-channel = "2"
dotenvy = "0.15"
env_logger = "0.11"
futures-util = "0.3"
gio = "0.18"
gtk = "0.18"
keyring = "2"
log = "0.4"
reqwest = { version = "0.12", default-features = false, features = ["json", "stream", "rustls-tls"] }
serde = { version = "1", features = ["derive"] }
serde_json = "1"
tokio = { version = "1", features = ["rt-multi-thread"] }
