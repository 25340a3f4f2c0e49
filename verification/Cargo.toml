[package]
name = "hibiki"
version = "0.1.0"
edition = "2021"
publish = false

[dependencies]
anyhow = "1"
gtk4-layer-shell = "*"
rodio = { version = "0.21", default-features = false }
serde = { version = "1", features = ["derive"] }
serde_json = "1"
tokio = { version = "1", features = ["rt"] }
tracing = "0.1"
tracing-subscriber = { version = "0.3", features = ["env-filter"] }
