[package]
name = "mlb_standings_bot"
version = "0.1.0"
edition = "2021"
publish = false

[dependencies]
anyhow = "1"
chrono = "0.4"
serde = { version = "1", features = ["derive"] }
serenity = "0.12"
tokio = { version = "1", features = ["macros", "rt-multi-thread", "sync", "time"] }
tokio-cron-scheduler = "*"
tracing = "0.1"

[dev-dependencies]
serde_json = "1"
