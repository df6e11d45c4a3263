[package]
name = "account_ledger"
version = "0.1.0"
edition = "2021"
publish = false

[dependencies]
sled = "=0.34.7"
tokio = { version = "1", features = ["rt-multi-thread", "macros", "io-util", "io-std", "fs", "sync"] }
csv-async = { version = "=1.3.1", features = ["tokio"] }
serde = { version = "1", features = ["derive"] }
futures = "0.3"
rust_decimal = "=1.43.0"
color-eyre = "0.6"
tracing = "0.1"
tracing-error = "0.2"
tracing-subscriber = { version = "0.3", features = ["env-filter"] }
