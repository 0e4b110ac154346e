[package]
name = "vnstat-dashboard"
version = "0.1.0"
edition = "2021"
publish = false

[dependencies]
chrono = "0.4"
serde = { version = "1", features = ["derive"] }
serde_json = "1"
tao = "*"
tiny_http = "0.12"
wry = "*"
