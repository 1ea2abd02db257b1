[package]
name = "eventsourced"
version = "0.1.0"
edition = "2021"
publish = false

[dependencies]
async-nats = "=0.50.0"
async-stream = "=0.3.6"
async-trait = "*"
bb8-postgres = "=0.9.0"
bytes = "*"
futures = "*"
serde = { version = "*", features = ["derive"] }
serde_json = "*"
thiserror = "*"
tokio = { version = "*", features = ["rt-multi-thread", "sync", "time", "macros"] }
tokio-postgres = { version = "=0.7.18", features = ["with-uuid-1"] }
tracing = "*"
uuid = { version = "*", features = ["v4", "v7"] }
