[package]
name = "attendance"
version = "0.1.0"
edition = "2021"
publish = false

[dependencies]
chrono = { version = "=0.4.45", features = ["serde"] }
chrono-tz = "=0.10.4"
serde = { version = "1", features = ["derive"] }
serde_json = "1"
reqwest = { version = "=0.13.5", default-features = false, features = ["json"] }
tokio = { version = "1", features = ["rt-multi-thread", "macros", "time", "signal", "net"] }
axum = "=0.8.9"
clap = { version = "4", features = ["derive"] }
thiserror = "*"
