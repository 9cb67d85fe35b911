[package]
name = "bonsai"
version = "0.1.0"
edition = "2021"
publish = false

[dependencies]
chrono = "*"
uuid = { version = "*", features = ["v4"] }
serde = { version = "*", features = ["derive"] }
serde_json = "*"
dirs = "*"
tokio = { version = "*", features = ["rt", "rt-multi-thread", "macros"] }
ollama-rs = "*"
