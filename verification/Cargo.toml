[package]
name = "encrypted_pipe"
version = "0.1.0"
edition = "2021"
publish = false

[dependencies]
chacha20 = "0.9"
rand = "0.8"
uuid = { version = "1", features = ["v4"] }
tokio = { version = "1", features = ["io-util", "sync", "time", "rt", "macros"] }
