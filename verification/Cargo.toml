[package]
name = "session_guard"
version = "0.1.0"
edition = "2021"
publish = false

[dependencies]
uuid = { version = "1", features = ["v4"] }
rocket = { version = "0.5", features = ["secrets"] }
cookie = "0.18"

[dev-dependencies]
serde_json = "1"
