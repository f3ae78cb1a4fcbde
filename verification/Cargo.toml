[package]
name = "pithy"
version = "0.1.0"
edition = "2021"
publish = false

[dependencies]
tantivy = "0.22"
notify = "7"
tokio = { version = "1", features = ["sync", "time", "rt", "macros"] }
walkdir = "2"
trash = "5"
toml = "0.8"
serde = { version = "1", features = ["derive"] }

[dev-dependencies]
tempfile = "3"
