[package]
name = "dump_it"
version = "0.1.0"
edition = "2021"
publish = false

[dependencies]
scraper = "=0.29.0"
sha2 = "=0.10.9"
url = "=2.5.8"
reqwest = "=0.12.28"
tokio = { version = "=1.54.1", features = ["full"] }
futures = "=0.3.34"
clap = { version = "=4.6.7", features = ["derive"] }
serde = { version = "=1.0.229", features = ["derive"] }
serde_json = "=1.0.154"
