[package]
name = "ledger_reconcile"
version = "0.1.0"
edition = "2021"
publish = false

[dependencies]
anyhow = "1"
beanru = "*"
chrono = "0.4"
clap = { version = "4", features = ["derive"] }
rust_decimal = "1"
serde = { version = "1", features = ["derive"] }
serde_yaml = "0.9"
tokio = { version = "1", features = ["full"] }
