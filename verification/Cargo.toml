[package]
name = "fc"
version = "0.1.0"
edition = "2021"
publish = false

[dependencies]
actix-web = "=4.18.1"
askama_actix = "=0.14.0"
env_logger = "=0.11.11"
serde = { version = "=1.0.229", features = ["derive"] }
