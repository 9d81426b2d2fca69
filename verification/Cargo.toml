[package]
name = "moqtail"
version = "0.1.0"
edition = "2021"
publish = false

[dependencies]
bytes = "1"
rand = "0.9"
anyhow = "1"
clap = { version = "4", features = ["derive"] }
tokio = { version = "1", features = ["full"] }
tracing = "0.1"
tracing-subscriber = { version = "0.3", features = ["env-filter"] }
wtransport = "*"
