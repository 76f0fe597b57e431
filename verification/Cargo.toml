[package]
name = "elo"
version = "0.1.0"
edition = "2021"
publish = false

[dependencies]
redb = "3"
axum = "0.8"
tokio = { version = "1", features = ["rt-multi-thread", "macros", "net", "sync"] }
serde = { version = "1", features = ["derive"] }
