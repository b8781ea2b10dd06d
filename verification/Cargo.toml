[package]
name = "async_watcher"
version = "0.3.1"
edition = "2021"
publish = false

[dependencies]
notify = "6.1.1"
tokio = { version = "1", features = ["rt-multi-thread", "macros", "sync", "time", "process"] }
async-trait = "0.1"
serde = { version = "1", features = ["derive"] }
thiserror = "1"
clap = { version = "4", features = ["derive"] }
globset = "0.4"
async-walkdir = "*"
tokio-stream = "0.1"
tracing = "0.1"
tracing-subscriber = "0.3"
