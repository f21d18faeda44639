[package]
name = "ipbeeldbuis"
version = "0.1.0"
edition = "2021"
publish = false

[dependencies]
anyhow = "1"
clap = { version = "4", features = ["derive"] }
crossterm = "0.28"
dirs = "6"
flate2 = "1"
mdns-sd = "0.13"
quick-xml = "0.37"
ratatui = "0.29"
reqwest = { version = "0.12", default-features = false, features = ["blocking", "rustls-tls"] }
rust_cast = "0.19"
serde = { version = "1", features = ["derive"] }
serde_json = "1"
