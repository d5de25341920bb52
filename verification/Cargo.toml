[package]
name = "local_pass"
version = "0.1.3"
edition = "2021"
publish = false

[dependencies]
anyhow = "1"
axum = "0.8"
chrono = "0.4"
dirs = "6"
once_cell = "1"
rand = "0.8"
reqwest = { version = "0.12", default-features = false, features = ["blocking", "rustls-tls"] }
rmcp = { version = "*", features = ["server", "transport-streamable-http-server"] }
serde_json = "1"
tokio = { version = "1", features = ["full"] }
uuid = { version = "1", features = ["v4"] }
