[package]
name = "arena_bot"
version = "0.1.0"
edition = "2021"
publish = false

[dependencies]
serde = { version = "1", features = ["derive"] }
serde_json = "1"
tokio = { version = "1", features = ["rt-multi-thread", "macros"] }
tokio-tungstenite = "*"
futures-util = { version = "0.3", features = ["sink"] }
anyhow = "1"
zip = { version = "2", default-features = false, features = ["deflate"] }
