[package]
name = "news_cli"
version = "0.1.0"
edition = "2021"
publish = false

[dependencies]
anyhow = "*"
console = "*"
dialoguer = "0.11"
feed-rs = "*"
futures-util = "*"
open = "*"
reqwest = { version = "*", default-features = false, features = ["rustls-tls", "gzip", "stream"] }
serde = { version = "*", features = ["derive"] }
serde_json = "*"
tokio = { version = "*", features = ["rt-multi-thread", "macros"] }
toml = "*"
url = "*"
