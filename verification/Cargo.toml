[package]
name = "rust_assistant"
version = "0.1.0"
edition = "2021"
publish = false

[dependencies]
anyhow = "1"
axum = "0.7"
axum-extra = { version = "0.9", features = ["typed-header"] }
flate2 = "1"
lru = "0.12"
parking_lot = "0.12"
proc-macro2 = { version = "1", features = ["span-locations"] }
quote = "1"
regex = "1"
reqwest = { version = "0.12", default-features = false, features = ["rustls-tls", "json"] }
serde = { version = "1", features = ["derive"] }
serde_json = "1"
syn = { version = "2", features = ["full"] }
tar = "0.4"
tokio = { version = "1", features = ["full"] }
