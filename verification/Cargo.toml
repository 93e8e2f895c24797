[package]
name = "rer"
version = "0.1.0"
edition = "2021"
publish = false

[dependencies]
clap = { version = "=4.6.7", features = ["derive"] }
regex = "=1.13.1"
rustpython-parser = "0.3"
serde = { version = "=1.0.229", features = ["derive"] }
serde_json = "=1.0.154"

[dev-dependencies]
rand = "=0.8.8"
