[package]
name = "semaphore_key"
version = "0.1.0"
edition = "2021"
publish = false

[dependencies]
log = "0.4"
tokio = { version = "1", features = ["sync", "rt-multi-thread", "time"] }
