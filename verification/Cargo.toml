[package]
name = "orgnotion"
version = "0.1.0"
edition = "2021"
publish = false

[dependencies]
clap = { version = "4", features = ["derive"] }
futures = "0.3"
jiff = "0.2"
notionrs = "=0.28.0"
notionrs_types = "=0.21.0"
orgize = "=0.10.0-alpha.10"
reqwest = { version = "=0.13.5", default-features = false }
serde = { version = "1", features = ["derive"] }
serde_json = "1"
thiserror = "2"
tokio = { version = "1", features = ["macros", "rt", "time"] }
walkdir = "2"
