[package]
name = "anonymous_corpus"
version = "0.1.0"
edition = "2021"
publish = false

[dependencies]
anyhow = "1.0.99"
clap = { version = "4.5.45", features = ["derive"] }
serde = { version = "1.0.219", features = ["derive"] }
serde_json = "1.0.143"
sha2 = "0.10.9"
uuid = { version = "1.18.0", features = ["serde"] }
