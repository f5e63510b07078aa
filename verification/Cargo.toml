[package]
name = "byteclasser"
version = "0.1.0"
edition = "2021"
publish = false

[dependencies]
csv = "1"
hex = "0.4"
rayon = "1"
serde = { version = "1", features = ["derive"] }
serde_json = "1"
