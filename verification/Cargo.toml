[package]
name = "redis_core"
version = "0.1.0"
edition = "2021"
publish = false

[dependencies]
anyhow = "*"
bstr = "*"
env_logger = "*"
log = "*"
tokio = { version = "*", features = ["rt-multi-thread", "macros", "net", "io-util", "sync"] }
