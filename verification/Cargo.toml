[package]
name = "git_ai"
version = "0.1.0"
edition = "2021"
publish = false

[dependencies]
serde = { version = "=1.0.229", features = ["derive"] }
serde_json = "=1.0.154"
sha2 = "=0.10.9"
glob = "=0.3.4"
chrono = "=0.4.45"
similar = "2"
