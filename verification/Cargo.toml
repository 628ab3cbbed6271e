[package]
name = "lanshare"
version = "0.1.0"
edition = "2021"
publish = false

[dependencies]
axum = "*"
tokio = { version = "*", features = ["full"] }
tokio-util = { version = "*", features = ["io"] }
local-ip-address = "*"
serde = { version = "*", features = ["derive"] }
serde_json = "*"
