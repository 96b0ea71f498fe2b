[package]
name = "aleo_pool_server"
version = "0.1.0"
edition = "2021"
publish = false

[dependencies]
hex = "*"
semver = "*"
anyhow = "*"
dirs = "*"
tokio = { version = "*", features = ["full"] }
tracing = "*"
serde_json = "*"
json-rpc-types = "*"
