[package]
name = "mdrag"
version = "0.1.0"
edition = "2021"
publish = false

[dependencies]
anyhow = "=1.0.104"
clap = { version = "=4.6.7", features = ["derive"] }
env_logger = "=0.11.11"
glob = "=0.3.4"
indicatif = "=0.17.11"
log = "=0.4.35"
ollama-rs = { version = "=0.3.6", features = ["stream"] }
rusqlite = "=0.41.1"
sqlite-vec = "=0.1.9"
tokio = { version = "=1.54.1", features = ["full"] }
tokio-stream = "=0.1.19"
zerocopy = "=0.8.63"

[dev-dependencies]
regex = "=1.13.1"
