[package]
name = "custom_redis"
version = "0.1.0"
edition = "2021"
publish = false

[dependencies]
anyhow = "=1.0.104"
async-trait = "=0.1.92"
axum = "=0.7.9"
bincode = "=1.3.3"
candle-core = "=0.4.1"
candle-nn = "=0.4.1"
candle-transformers = "=0.4.1"
half = "=2.4.1"
serde = { version = "=1.0.229", features = ["derive"] }
serde_json = "=1.0.154"
tokenizers = { version = "=0.15.2", default-features = false, features = ["onig"] }
tokio = { version = "=1.54.1", features = ["full"] }
