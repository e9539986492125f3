[package]
name = "paperdown"
version = "0.2.0"
edition = "2021"
publish = false

[dependencies]
anyhow = "=1.0.104"
base64 = "=0.22.1"
clap = { version = "=4.6.7", features = ["derive"] }
dotenvy = "=0.15.7"
fast_html2md = "=0.0.63"
futures = "=0.3.34"
indicatif = "=0.17.11"
regex = "=1.13.1"
reqwest = { version = "=0.12.28", default-features = false, features = ["rustls-tls", "stream"] }
serde = { version = "=1.0.229", features = ["derive"] }
serde_json = { version = "=1.0.154", features = ["float_roundtrip"] }
time = { version = "=0.3.55", features = ["formatting"] }
tokio = { version = "=1.54.1", features = ["fs", "io-util", "macros", "rt-multi-thread", "sync"] }
toml = "=0.8.23"
url = "=2.5.8"
