[package]
name = "redis_slowlog"
version = "0.1.0"
edition = "2021"
publish = false

[dependencies]
redis = "*"
clap = "*"
log = "*"
stderrlog = "*"
serde = { version = "*", features = ["derive"] }
serde_json = "*"
