[package]
name = "item_range"
version = "0.1.0"
edition = "2021"
publish = false

[dependencies]
anyhow = "=1.0.104"
axum = "=0.8.9"
deadpool-postgres = "=0.14.2"
dotenvy = "=0.15.7"
once_cell = "=1.21.4"
rayon = "=1.12.0"
rust_decimal = { version = "=1.43.0", features = ["db-tokio-postgres"] }
serde = { version = "=1.0.229", features = ["derive"] }
serde_json = "=1.0.151"
tokio = { version = "=1.53.2", features = ["macros", "rt-multi-thread", "net"] }
tokio-postgres = "=0.7.18"
tracing = "=0.1.44"
tracing-subscriber = { version = "=0.3.23", features = ["env-filter"] }
