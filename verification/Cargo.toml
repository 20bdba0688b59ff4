[package]
name = "veilid-vc"
version = "0.1.0"
edition = "2021"
publish = false

[dependencies]
clap = { version = "=4.6.7", features = ["derive"] }
ctrlc = "=3.5.2"
data-encoding = "=2.11.1"
serde = { version = "=1.0.229", features = ["derive"] }
serde_json = "=1.0.154"
tokio = { version = "=1.54.1", features = ["rt-multi-thread", "macros", "sync", "time", "net", "io-util"] }
veilid-core = { version = "=0.5.8", default-features = false, features = ["rt-tokio", "enable-crypto-vld0", "mock-api"] }
