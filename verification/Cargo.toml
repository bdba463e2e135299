[package]
name = "aether_store"
version = "0.1.0"
edition = "2021"
publish = false

[dependencies]
sled = "*"
blake3 = "*"
serde = { version = "*", features = ["derive"] }
serde_json = "*"
serde_yaml = "*"
anyhow = "*"
reqwest = { version = "*", default-features = false, features = ["blocking", "json"] }
