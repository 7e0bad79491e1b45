[package]
name = "conserve"
version = "0.1.0"
edition = "2021"
publish = false

[dependencies]
blake2-rfc = "=0.2.18"
chrono = "0.4"
hex = "=0.4.3"
rayon = "=1.12.0"
serde = { version = "=1.0.229", features = ["derive"] }
serde_json = "1"
snafu = "0.7"
snap = "=1.1.2"
tempfile = "=3.27.0"
