[package]
name = "mydns"
version = "0.1.0"
edition = "2021"
publish = false

[dependencies]
anyhow = "=1.0.104"
chrono = { version = "=0.4.45", default-features = false, features = ["std", "now"] }
chrono-tz = "=0.10.4"
hickory-proto = "=0.26.3"
rand = "=0.8.8"
serde = { version = "=1.0.229", features = ["derive"] }
toml = "=1.1.8"
