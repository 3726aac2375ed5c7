[package]
name = "rayback"
version = "0.1.0"
edition = "2021"
publish = false

[dependencies]
async-std = { version = "=1.13.2", features = ["attributes"] }
futures = "=0.3.34"
indicatif = "0.17"
log = "=0.4.34"
serde = { version = "=1.0.229", features = ["derive"] }
serde_json = "=1.0.154"
structopt = "=0.3.26"
surf = "=2.3.2"
url = "=2.5.8"
