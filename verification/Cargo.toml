[package]
name = "courier"
version = "0.1.0"
edition = "2021"
publish = false

[dependencies]
anyhow = "1"
tokio = { version = "1", features = ["rt", "sync"] }
tracing = "0.1"
twilight-gateway = "0.16"
twilight-http = "0.16"
twilight-model = "0.16"
