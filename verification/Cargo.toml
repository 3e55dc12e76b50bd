[package]
name = "log-opentelemetry"
version = "0.0.1"
edition = "2021"
publish = false

[dependencies]
hex = "=0.4.3"
log = { version = "=0.4.34", features = ["kv"] }
opentelemetry = { version = "=0.20.0", features = ["logs"] }
opentelemetry-semantic-conventions = "=0.12.0"
sval = { version = "=0.5.2", features = ["std", "arbitrary-depth"] }
