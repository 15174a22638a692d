[package]
name = "repofleet"
version = "0.1.0"
edition = "2021"
publish = false

[dependencies]
rayon = "=1.12.0"
clap = { version = "=4.6.7", features = ["derive"] }
colored = "=3.1.1"
serde = { version = "=1.0.229", features = ["derive"] }
serde_json = "*"
serde_yaml = "=0.9.34"
chrono = "=0.4.45"
dirs = "=7.0.0"
