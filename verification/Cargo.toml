[package]
name = "pi_chat"
version = "0.1.0"
edition = "2021"
publish = false

[dependencies]
async-openai = { version = "=0.43.0", default-features = false, features = ["chat-completion-types"] }
keyring = "=3.6.3"
reqwest = { version = "=0.12.28", default-features = false, features = ["json", "stream", "rustls-tls"] }
rmcp = { version = "=3.8.0", features = ["client", "transport-child-process"] }
rusqlite = { version = "=0.41.1", features = ["bundled"] }
serde = { version = "=1.0.229", features = ["derive"] }
serde_json = "=1.0.154"
tokio = { version = "=1.54.1", features = ["full"] }
tokio-stream = "=0.1.19"
uuid = { version = "=1.29.0", features = ["v4"] }
