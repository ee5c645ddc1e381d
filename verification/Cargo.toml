[package]
name = "vapx_scan"
version = "0.1.0"
edition = "2021"
publish = false

[dependencies]
ipnet = "2"
clap = { version = "4", features = ["derive"] }
tokio = { version = "1", features = ["full"] }
reqwest = { version = "0.12", default-features = false, features = ["rustls-tls"] }
socket2 = { version = "0.5", features = ["all"] }
if-addrs = "*"
serde = { version = "1", features = ["derive"] }
serde_json = "1"
