[package]
name = "feishu-unreadme-app"
version = "0.1.2"
edition = "2021"
publish = false

[dependencies]
regex = "1"
sha2 = "0.10"
chrono = { version = "0.4", features = ["serde"] }
serde = { version = "1", features = ["derive"] }
serde_json = "1"
plist = "1"
thiserror = "2"
tracing = "0.1"
tracing-subscriber = { version = "0.3", features = ["env-filter"] }
