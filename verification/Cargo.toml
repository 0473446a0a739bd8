[package]
name = "kafka_panel"
version = "0.1.0"
edition = "2021"
publish = false

[dependencies]
rdkafka = "*"
serde = { version = "*", features = ["derive"] }
serde_json = "*"
tokio = { version = "*", features = ["rt", "time", "sync", "macros"] }
jfs = "*"
