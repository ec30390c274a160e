[package]
name = "mr"
version = "0.1.0"
edition = "2021"
publish = false

[dependencies]
anyhow = "1"
clap = { version = "4", features = ["derive"] }
crossbeam-queue = "0.3"
dashmap = "5"
dlopen2 = "*"
futures = "0.3"
itertools = "0.10"
prost = "0.11"
rand = "0.8"
time = { version = "0.3", features = ["macros"] }
tokio = { version = "1", features = ["full"] }
tonic = "0.9"
tracing = "0.1"
tracing-appender = "0.2"
tracing-subscriber = { version = "0.3", features = ["local-time"] }
uuid = { version = "1", features = ["v4"] }
