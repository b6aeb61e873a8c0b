[package]
name = "fabric"
version = "0.1.0"
edition = "2021"
publish = false

[dependencies]
futures-util = "0.3"
lazy_static = "1"
num_cpus = "1"
parking_lot = "0.12"
rusqlite = { version = "*", features = ["bundled"] }
serde = { version = "1", features = ["derive"] }
serde_json = "1"
tokio = { version = "1", features = ["net", "sync"] }
tokio-tungstenite = "*"
toml = "*"
uuid = { version = "1", features = ["v4"] }
