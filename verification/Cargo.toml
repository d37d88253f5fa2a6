[package]
name = "matthias_core"
version = "0.1.0"
edition = "2021"
publish = false

[dependencies]
uuid = "1"
tokio = { version = "1", features = ["rt-multi-thread", "net", "io-util", "sync", "time", "macros"] }
tokio-util = "0.7"
anyhow = "1"
serde = { version = "1", features = ["derive"] }
serde_json = "1"
