[package]
name = "agentic-sync"
version = "0.1.0"
edition = "2021"
publish = false

[dependencies]
serde_json = "1"
similar = "2"
clap = { version = "4", features = ["derive"] }

[dev-dependencies]
tempfile = "3"
