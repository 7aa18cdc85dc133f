[package]
name = "hybrid_memory"
version = "0.1.0"
edition = "2021"
publish = false

[dependencies]
sha2 = "0.10"
uuid = { version = "1", features = ["v4"] }
serde_json = "1"
anyhow = "1"
chrono = "0.4"
reqwest = { version = "0.12", features = ["blocking", "json"] }
