[package]
name = "index"
version = "0.1.0"
edition = "2021"
publish = false

[dependencies]
snappy = "*"
snap = "*"
bloomfilter = "*"
base32 = "*"
tokio = { version = "*", features = ["full"] }
axum = "*"
clap = { version = "*", features = ["derive"] }
serde = { version = "*", features = ["derive"] }
tracing = "*"
tracing-subscriber = { version = "*", features = ["env-filter"] }
