[package]
name = "kv_rs"
version = "0.1.0"
edition = "2021"
publish = false

[dependencies]
anyhow = "*"
bitcask-engine-rs = "*"
clap = { version = "*", features = ["derive", "env"] }
raft-lite = "*"
thiserror = "*"
tokio = { version = "*", features = ["full"] }
tracing = "*"
tracing-appender = "*"
tracing-bunyan-formatter = "*"
tracing-log = "*"
tracing-subscriber = "*"
uuid = { version = "*", features = ["v4"] }
