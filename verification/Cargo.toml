[package]
name = "proxy_elev"
version = "0.1.0"
edition = "2021"
publish = false

[dependencies]
ron = "*"
serde = { version = "*", features = ["derive"] }
serde_json = "*"
