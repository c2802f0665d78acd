[package]
name = "sad"
version = "0.1.0"
edition = "2021"
publish = false

[dependencies]
uuid = { version = "*", features = ["v4"] }
which = "*"
atty = "*"
tokio = { version = "*", features = ["full"] }
futures = "*"
async-channel = "*"
