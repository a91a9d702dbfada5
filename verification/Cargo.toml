[package]
name = "gpn21_tron"
version = "0.1.0"
edition = "2021"
publish = false

[dependencies]
ndarray = "=0.15.6"
rand = "=0.8.8"
serde = { version = "=1.0.229", features = ["derive"] }
toml = "=0.9.8"
env_logger = "=0.11.11"
log = "=0.4.34"
