[package]
name = "metasearch"
version = "0.1.0"
edition = "2021"
publish = false

[dependencies]
scraper = "*"
percent-encoding = "*"
url = "*"
chrono = "*"
reqwest = { version = "*", default-features = false }
tokio = { version = "*", features = ["rt-multi-thread", "time", "macros"] }
rand = "*"
serde = { version = "*", features = ["derive"] }
