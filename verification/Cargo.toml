[package]
name = "webscraper"
version = "0.1.0"
edition = "2021"
publish = false

[dependencies]
rand = "0.8"
scraper = "0.19"
reqwest = { version = "0.11", default-features = false }
tokio = { version = "1", features = ["rt-multi-thread", "macros", "time"] }
axum = "0.6"
tower-http = { version = "0.4", features = ["cors"] }
serde = { version = "1", features = ["derive"] }
serde_json = "1"
trust-dns-resolver = "0.22"
