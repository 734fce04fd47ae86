[package]
name = "scrapbook_helper"
version = "0.1.0"
edition = "2021"
publish = false

[dependencies]
ahash = "*"
chrono = "*"
fastrand = "*"
flate2 = "*"
serde = { version = "*", features = ["derive"] }
serde_json = "*"
