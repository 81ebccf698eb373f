[package]
name = "mdns-reflector"
version = "0.1.0"
edition = "2021"
publish = false

[dependencies]
trust-dns-proto = { version = "=0.23.2", default-features = false, features = ["mdns"] }
anyhow = "=1.0.104"
clap = { version = "=4.6.7", features = ["derive"] }
serde = { version = "=1.0.229", features = ["derive"] }
toml = "=0.8.23"
if-addrs = "=0.10.2"
socket2 = { version = "=0.5.10", features = ["all"] }
tokio = { version = "=1.54.1", features = ["full"] }
tracing = "=0.1.44"
tracing-subscriber = { version = "=0.3.23", features = ["env-filter"] }
