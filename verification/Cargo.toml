[package]
name = "bifrostlink"
version = "0.1.0"
edition = "2021"
publish = false

[dependencies]
async-trait = "0.1"
bytes = "1"
futures = "0.3"
proc-macro2 = "1"
quote = "1"
serde = { version = "1", features = ["derive"] }
serde_json = "1"
syn = { version = "2", features = ["full", "extra-traits"] }
tokio = { version = "1", features = ["rt", "rt-multi-thread", "sync", "macros", "io-util", "io-std", "net", "process", "time"] }
tracing = "0.1"
