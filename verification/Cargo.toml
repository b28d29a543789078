[package]
name = "market_web"
version = "0.1.0"
edition = "2021"
publish = false

[dependencies]
matching_engine = "*"
serde = { version = "*", features = ["derive"] }
serde_json = "*"
