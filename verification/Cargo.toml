[package]
name = "bigram_smoothing"
version = "0.1.0"
edition = "2021"
publish = false

[dependencies]
bincode = "1.3"
csv = "1"
indicatif = "0.17"
serde = { version = "1", features = ["derive"] }
tiktoken-rs = "*"
