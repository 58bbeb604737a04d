[package]
name = "datadog_exporter"
version = "0.1.0"
edition = "2021"
publish = false

[dependencies]
async-trait = "=0.1.92"
http = "=0.2.12"
opentelemetry = { version = "=0.9.1", features = ["http"] }
reqwest = { version = "=0.10.10", default-features = false }
