[package]
name = "monocr"
version = "0.1.0"
edition = "2021"
publish = false

[dependencies]
anyhow = "=1.0.104"
clap = { version = "=4.6.7", features = ["derive"] }
dirs = "=5.0.1"
image = { version = "=0.25.10", default-features = false, features = ["png", "jpeg"] }
indicatif = "=0.17.11"
ndarray = "=0.17.2"
ort = { version = "=2.0.0-rc.15", features = ["ndarray"] }
reqwest = { version = "=0.12.28", default-features = false, features = ["blocking", "rustls-tls"] }
serde = { version = "=1.0.229", features = ["derive"] }
serde_json = "=1.0.154"
tempfile = "=3.27.0"
tokio = { version = "=1.54.1", features = ["rt-multi-thread", "macros", "process"] }
