[package]
name = "stract_core"
version = "0.1.0"
edition = "2021"
publish = false

[dependencies]
url = "2"
chrono = "0.4"
rust-stemmers = "1"
serde = { version = "1", features = ["derive"] }
serde_json = "1"
rayon = "1"
