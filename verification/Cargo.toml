[package]
name = "mikufans_bvc_server"
version = "0.1.0"
edition = "2021"
publish = false

[dependencies]
fluent-uri = "*"
tokio = { version = "1", features = ["rt-multi-thread", "net", "io-util", "time", "macros", "signal", "fs", "sync"] }
