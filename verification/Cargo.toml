[package]
name = "audify"
version = "0.1.0"
edition = "2021"
publish = false

[dependencies]
regex = "=1.13.1"
scraper = "=0.29.0"
base64 = "=0.22.1"
sha2 = "=0.10.9"
reqwest = { version = "=0.12.28", default-features = false, features = ["json", "rustls-tls"] }
tokio = { version = "=1.54.1", features = ["full"] }
async-trait = "=0.1.92"
clap = { version = "=4.6.7", features = ["derive"] }
dotenvy = "=0.15.7"
tracing = "=0.1.44"
tracing-subscriber = { version = "=0.3.23", features = ["env-filter", "json"] }
tempfile = "=3.27.0"
anyhow = "=1.0.104"
thiserror = "=2.0.21"
serde = { version = "=1.0.229", features = ["derive"] }
serde_json = "=1.0.154"
pdf-extract = "=0.12.1"
config = { version = "0.15", default-features = false }
