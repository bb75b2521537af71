[package]
name = "qkd_relay"
version = "0.1.0"
edition = "2021"
publish = false

[dependencies]
base64 = "*"
axum = "*"
tokio = { version = "*", features = ["rt-multi-thread", "macros", "net", "sync"] }
hyper = "*"
hyper-util = { version = "*", features = ["client-legacy", "http1", "tokio"] }
serde = { version = "*", features = ["derive"] }
serde_json = "*"
serde_qs = "*"
toml = "*"
clap = { version = "*", features = ["derive"] }
thiserror = "*"
