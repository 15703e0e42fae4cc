[package]
name = "codex_ide"
version = "0.1.0"
edition = "2021"
publish = false

[dependencies]
anyhow = "1"
futures = "0.3"
libc = "0.2"
log = "0.4"
serde_json = "1"
tokio = { version = "1", features = ["io-util", "macros", "net", "rt", "sync", "time"] }
uuid = { version = "1", features = ["v4"] }
