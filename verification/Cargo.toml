[package]
name = "carapace"
version = "0.1.0"
edition = "2021"
publish = false

[dependencies]
rand = "*"
tokio = { version = "*", features = ["full"] }
tokio-tungstenite = "*"
futures-util = "*"
async-channel = "*"
tracing = "*"
tracing-subscriber = "*"
