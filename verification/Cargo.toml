[package]
name = "tx3_dashboard"
version = "0.1.0"
edition = "2021"
publish = false

[dependencies]
hex = "=0.4.3"
pallas = "=1.4.0"
tx3-lang = "=0.25.0"
tx3-tir = "=0.19.0"
tx3-resolver = "=0.25.0"
serde = { version = "=1.0.229", features = ["derive"] }
serde_json = "=1.0.154"
anyhow = "=1.0.104"
dotenvy = "=0.15.7"
tracing = "=0.1.44"
tracing-subscriber = { version = "=0.3.23", features = ["env-filter", "fmt"] }
tokio = { version = "=1.54.1", features = ["macros", "rt-multi-thread", "net"] }
axum = "=0.8.9"
reqwest = { version = "=0.12.28", default-features = false, features = ["json", "rustls-tls"] }
sqlx = { version = "=0.9.0", default-features = false, features = ["sqlite", "runtime-tokio"] }
utxorpc = "*"
