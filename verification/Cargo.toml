[package]
name = "cce_map"
version = "0.1.0"
edition = "2021"
publish = false

[dependencies]
calloop = "=0.14.5"
env_logger = "=0.11.11"
image = { version = "=0.25.5", default-features = false, features = ["png"] }
log = "=0.4.35"
reqwest = { version = "=0.12.28", default-features = false, features = ["blocking", "rustls-tls"] }
wayland-client = "=0.31.15"
