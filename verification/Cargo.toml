[package]
name = "ems_industrial_gateway"
version = "0.1.0"
edition = "2021"
publish = false

[dependencies]
anyhow = "=1.0.104"
aws-config = "=1.13.0"
aws-sdk-cloudformation = "=1.136.0"
aws-sdk-secretsmanager = "=1.125.0"
backoff = { version = "=0.4.0", features = ["tokio"] }
bacnet-rs = "=0.3.2"
chrono = "=0.4.45"
dashmap = "=6.2.1"
dnp3 = "=1.8.0"
futures = "=0.3.34"
paho-mqtt = { version = "=0.14.0", default-features = false }
reqwest = { version = "=0.12.28", default-features = false, features = ["json", "rustls-tls"] }
rodbus = "=1.6.0"
serde = { version = "=1.0.229", features = ["derive"] }
serde_json = "=1.0.154"
serde_yaml = "=0.9.34"
snmp2 = "=0.5.3"
tokio = { version = "=1.54.1", features = ["full"] }
tokio-util = "=0.7.20"
tracing = "=0.1.44"
tracing-subscriber = "=0.3.23"
validator = { version = "=0.20.0", features = ["derive"] }
