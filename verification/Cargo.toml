[package]
name = "kadcast"
version = "0.1.0"
edition = "2021"
publish = false

[dependencies]
blake2 = "*"
rand = "*"
raptorq = "*"
clap = "*"
tokio = { version = "*", features = ["rt", "rt-multi-thread", "net", "sync", "time", "io-util", "macros"] }
tracing = "*"
tracing-subscriber = "*"
