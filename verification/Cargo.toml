[package]
name = "stockfin"
version = "0.1.0"
edition = "2021"
publish = false

[dependencies]
anyhow = "*"
directories = "*"
tokio = { version = "*", features = ["rt", "time", "macros"] }
yahoo_finance_api = "*"
zbus = "*"

[dev-dependencies]
serde_json = "*"
