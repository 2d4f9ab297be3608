[package]
name = "orderbook"
version = "0.1.0"
edition = "2021"
publish = false

[dependencies]
rust_decimal = "1"
sorted-vec = "0.8"
serde = { version = "1", features = ["derive"] }
serde_json = "1"
tokio = { version = "1", features = ["full"] }
tokio-tungstenite = "0.20"
futures = "0.3"
reqwest = { version = "0.11", default-features = false }
amqprs = "1"
clap = { version = "4", features = ["derive"] }
log = "0.4"
env_logger = "0.10"
async-trait = "0.1"
pin-project = "1"
