[package]
name = "dirge_agent"
version = "0.1.0"
edition = "2021"
publish = false

[dependencies]
anyhow = "=1.0.104"
compact_str = "=0.9.1"
futures = "=0.3.34"
ignore = "=0.4.34"
indexmap = "=2.14.2"
libc = "=0.2.191"
lsp-types = "=0.97.0"
regex = "=1.13.1"
rig-core = { version = "=0.35.0", default-features = false }
serde = { version = "=1.0.229", features = ["derive"] }
serde_json = "=1.0.154"
tokio = { version = "=1.54.1", features = ["full"] }
tracing = "=0.1.44"
