[package]
name = "dsp_chain"
version = "0.1.0"
edition = "2021"
publish = false

[dependencies]
axum = "0.6"
dotenv = "0.15"
futures = "0.3"
mongodb = "2"
regex = "1"
reqwest = { version = "0.11", default-features = false }
scraper = "0.19"
serde = { version = "1", features = ["derive"] }
serde_json = "1"
tokio = { version = "1", features = ["full"] }
