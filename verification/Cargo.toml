[package]
name = "docstore"
version = "0.1.0"
edition = "2021"
publish = false

[dependencies]
zstd = "*"
ulid = "*"
tokio = { version = "*", features = ["full"] }
tokio-util = { version = "*", features = ["codec"] }
futures = "*"
clap = { version = "*", features = ["derive"] }
tracing = "*"
tracing-subscriber = "*"
bytes = "*"
