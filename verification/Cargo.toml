[package]
name = "recommend"
version = "0.1.0"
edition = "2021"
publish = false

[dependencies]
rand = "0.8"
uuid = { version = "*", features = ["v4"] }
rouille = "*"
config = "*"
serde = { version = "*", features = ["derive"] }
serde_json = "*"
