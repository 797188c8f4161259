[package]
name = "shabti"
version = "0.1.0"
edition = "2021"
publish = false

[dependencies]
uuid = { version = "=1.29.0", features = ["v4", "serde"] }
sha2 = "=0.10.9"
regex = "=1.13.1"
serde = { version = "=1.0.229", features = ["derive"] }
serde_json = "=1.0.154"
hdbscan = "=0.12.0"
thiserror = "=2.0.21"
