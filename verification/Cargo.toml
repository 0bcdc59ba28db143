[package]
name = "miktik_api"
version = "0.1.0"
edition = "2021"
publish = false

[dependencies]
rustls = { version = "0.19", features = ["dangerous_configuration"] }
webpki = "0.21"
serde = { version = "1", features = ["derive"] }
serde_json = "1"
tiny_http = "0.12"
termion = "1.5"
async-std = { version = "1", features = ["attributes"] }
