[package]
name = "soroban_debugger"
version = "0.1.0"
edition = "2021"
publish = false

[dependencies]
serde = { version = "=1.0.229", features = ["derive"] }
serde_json = "=1.0.151"
anyhow = "=1.0.104"
clap = { version = "=4.6.7", features = ["derive"] }
indicatif = "=0.18.6"
tracing = "=0.1.44"
tracing-subscriber = { version = "=0.3.23", features = ["env-filter"] }
soroban-sdk = { version = "=28.0.0", features = ["testutils"] }
soroban-env-host = { version = "=28.0.2", features = ["testutils"] }
soroban-ledger-snapshot = "=28.0.0"
