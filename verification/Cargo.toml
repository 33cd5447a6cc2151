[package]
name = "qdrant"
version = "0.1.0"
edition = "2021"
publish = false

[dependencies]
actix-web = "4"
env_logger = "0.9"
log = "0.4"
serde = { version = "1", features = ["derive"] }
serde_json = "1"
tokio = { version = "1", features = ["rt-multi-thread"] }
