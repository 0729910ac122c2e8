[package]
name = "pipeline_router"
version = "0.1.0"
edition = "2021"
publish = false

[dependencies]
async-trait = "0.1"
chrono = "0.4"
futures-util = "0.3"
hyper = { version = "0.14", features = ["server", "http1", "tcp", "stream"] }
log = "0.4"
serde = { version = "1", features = ["derive"] }
serde_json = "1"
tokio = { version = "1", features = ["rt-multi-thread", "sync", "time", "net"] }
