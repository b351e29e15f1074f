[package]
name = "rust-book-translator"
version = "0.1.0"
edition = "2021"
publish = false

[dependencies]
regex = "1"
tiktoken-rs = "*"
serde = { version = "1", features = ["derive"] }
serde_json = "1"
serde-saphyr = "*"
reqwest = { version = "0.12", default-features = false, features = ["json", "rustls-tls"] }
tokio = { version = "1", features = ["rt-multi-thread", "macros", "fs", "time"] }
anyhow = "1"
