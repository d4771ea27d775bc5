[package]
name = "gamereader"
version = "1.0.0"
edition = "2021"
publish = false

[dependencies]
rapidfuzz = "=0.5.0"
serde = { version = "=1.0.229", features = ["derive"] }
serde_json = "=1.0.154"
thiserror = "=1.0.69"
anyhow = "1"
chrono = { version = "0.4", default-features = false, features = ["clock", "std"] }
tracing = "0.1"
