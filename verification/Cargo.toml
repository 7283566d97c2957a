[package]
name = "utp"
version = "0.1.0"
edition = "2021"
publish = false

[dependencies]
bytes = "1"
dashmap = "5"
flume = "0.10"
futures-util = "0.3"
log = "0.4"
rand = "0.8"
thiserror = "1"
tokio = { version = "1", features = ["io-util", "net", "rt", "sync"] }
