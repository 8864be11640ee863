[package]
name = "indexer"
version = "0.1.0"
edition = "2021"
publish = false

[dependencies]
sha2 = "0.10"
hex = "0.4"
anyhow = "1"
tokio = { version = "1", features = ["rt-multi-thread", "macros", "fs", "sync", "time", "io-util"] }
futures = "0.3"
clap = { version = "4", features = ["derive", "env"] }
notify = "6"
notify-debouncer-mini = "0.4"
rayon = "1"
serde = { version = "1", features = ["derive"] }
serde_json = "1"
toml = "0.8"
directories = "5"
async-trait = "0.1"
async-recursion = "1"
ansi_term = "0.12"
typed-builder = "0.18"
dataloader = "0.17"
fastembed = "3"
sqlx = { version = "0.7", default-features = false, features = ["runtime-tokio", "sqlite", "macros"] }
sea-query = "0.30"
sea-query-binder = { version = "0.5", features = ["sqlx-sqlite"] }
