[package]
name = "rados"
version = "0.1.0"
edition = "2021"
publish = false

[dependencies]
aes-gcm = "*"
getrandom = "*"
hickory-resolver = "*"
tokio = { version = "1", features = ["rt", "rt-multi-thread", "io-util", "net", "sync", "time", "macros"] }

[dev-dependencies]
loom = "*"
