[package]
name = "trade_data"
version = "0.1.0"
edition = "2021"
publish = false

[dependencies]
lazy_static = "=1.5.1"
rocket = { version = "0.5", default-features = false, features = ["json"] }
serde = "=1.0.229"
serde_derive = "=1.0.229"
