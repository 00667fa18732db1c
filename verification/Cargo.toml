[package]
name = "bobot"
version = "0.1.0"
edition = "2021"
publish = false

[dependencies]
bit-iter = "*"
rand = "=0.10.3"
serde = { version = "=1.0.229", features = ["derive"] }
axum = "=0.8.9"
tokio = { version = "=1.54.1", features = ["macros", "rt-multi-thread", "net"] }
dashmap = "=6.2.1"
