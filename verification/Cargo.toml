[package]
name = "simple_redis"
version = "0.1.0"
edition = "2021"
publish = false

[dependencies]
anyhow = "*"
bytes = "*"
dashmap = "*"
futures = "*"
tokio = { version = "*", features = ["rt-multi-thread", "net", "macros", "io-util"] }
tokio-stream = "*"
tokio-util = { version = "*", features = ["codec"] }
tracing = "*"
tracing-subscriber = "*"
