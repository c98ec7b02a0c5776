[package]
name = "jupiter_search"
version = "0.1.0"
edition = "2021"
publish = false

[dependencies]
webrtc-vad = "=0.4.0"
regex = "=1.13.1"
rss = "=2.1.2"
chrono = { version = "=0.4.45", default-features = false, features = ["alloc", "std"] }
anyhow = "1"
audrey = "0.3"
clap = { version = "4", features = ["derive", "env"] }
env_logger = { version = "0.10", default-features = false }
futures = "0.3"
futures-util = "0.3"
lofty = "0.11"
log = "0.4"
meilisearch-sdk = "0.20"
reqwest = { version = "0.11", default-features = false, features = ["rustls-tls", "stream"] }
rubato = "0.12"
serde = { version = "1", features = ["derive"] }
serde_json = "1"
symphonia = { version = "0.5", features = ["mp3"] }
tokio = { version = "1", features = ["macros", "rt-multi-thread", "sync"] }
uuid = { version = "1", features = ["v4"] }
whisper-rs = "0.2"
