[package]
name = "rate_limiter"
version = "0.1.0"
edition = "2021"
publish = false

[dependencies]
anyhow = "*"
poem = "*"
poem-ratelimit = "*"
redis = { version = "*", features = ["aio", "connection-manager", "tokio-comp"] }
serde = { version = "*", features = ["derive"] }
serde_yaml = "*"
tokio = { version = "*", features = ["rt-multi-thread", "macros"] }
