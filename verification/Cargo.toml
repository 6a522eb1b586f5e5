[package]
name = "asc_mcp_server"
version = "0.1.0"
edition = "2021"
publish = false

[dependencies]
encoding_rs = "0.8"
chrono = { version = "0.4", default-features = false, features = ["clock"] }
futures-util = { version = "0.3", features = ["sink"] }
serde = { version = "1", features = ["derive"] }
serde_json = "1"
tokio = { version = "1", features = ["rt-multi-thread", "macros", "net"] }
tokio-tungstenite = "0.21"
zip = { version = "0.6", default-features = false, features = ["deflate"] }
