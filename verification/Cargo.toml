[package]
name = "recall"
version = "0.1.0"
edition = "2021"
publish = false

[dependencies]
jieba-rs = "*"
url = "2"
chrono = "0.4"
rusqlite = { version = "*", features = ["bundled"] }
serde = { version = "1", features = ["derive"] }
serde_json = "1"
uuid = { version = "1", features = ["v4"] }
dirs = "*"
