[package]
name = "rnd"
version = "0.1.0"
edition = "2021"
publish = false

[dependencies]
anyhow = "=1.0.104"
clap = { version = "=4.6.7", features = ["derive"] }
directories = "=5.0.1"
humantime = "=2.4.0"
owo-colors = { version = "=4.4.0", features = ["supports-colors"] }
reqwest = { version = "=0.12.28", default-features = false, features = ["json", "rustls-tls"] }
serde = { version = "=1.0.229", features = ["derive"] }
serde_json = "=1.0.154"
tokio = { version = "=1.54.1", features = ["rt"] }
walkdir = "=2.5.0"

[dev-dependencies]
regex = "=1.13.1"
