[package]
name = "calendar_cols"
version = "0.1.0"
edition = "2021"
publish = false

[dependencies]
askama = "=0.12.1"
chrono = { version = "=0.4.45", features = ["serde"] }
serde = { version = "=1.0.229", features = ["derive"] }
serde_json = "=1.0.154"
structopt = "=0.3.26"
