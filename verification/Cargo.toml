[package]
name = "crawler"
version = "0.1.0"
edition = "2021"
publish = false

[dependencies]
scraper = "0.18.1"
reqwest = { version = "0.11.23", default-features = false }
tokio = { version = "1.35.1", features = ["rt-multi-thread", "macros", "signal", "time"] }

[dev-dependencies]
serde_json = "1.0.111"
