[package]
name = "dododb"
version = "0.1.0"
edition = "2021"
publish = false

[dependencies]
serde_json = "*"
chrono = "*"
serde = { version = "*", features = ["derive"] }
axum = "*"
tokio = { version = "*", features = ["full"] }
reqwest = { version = "*", default-features = false, features = ["json"] }
tower-http = { version = "*", features = ["trace"] }
tracing = "*"
tracing-subscriber = "*"
thiserror = "*"
