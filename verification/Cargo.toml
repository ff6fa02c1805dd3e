[package]
name = "fiber_autopilot"
version = "0.1.0"
edition = "2021"
publish = false

[dependencies]
rand = "=0.9.5"
anyhow = "1"
bs58 = "0.5"
clap = { version = "4", features = ["derive"] }
jsonrpsee = { version = "=0.26.1", features = ["http-client"] }
log = "*"
serde = { version = "1", features = ["derive"] }
serde_json = "1"
serde_with = "*"
sha2 = "0.10"
tokio = { version = "1", features = ["rt-multi-thread", "macros", "time"] }
toml = "*"
tracing = "*"
tracing-subscriber = "*"
