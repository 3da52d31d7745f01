[package]
name = "timecard"
version = "0.1.0"
edition = "2021"
publish = false

[dependencies]
chrono = "0.4"
chrono-tz = "0.9"
sqlx = { version = "0.8", default-features = false, features = ["runtime-tokio", "sqlite"] }
serde = { version = "1", features = ["derive"] }
serde_json = "1"
once_cell = "1"
dirs = "5"
tokio = { version = "1", features = ["rt-multi-thread"] }
dioxus = { version = "0.7.1", features = ["router"] }
rfd = "0.15"
