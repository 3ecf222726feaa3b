[package]
name = "kvcache"
version = "0.1.0"
edition = "2021"
publish = false

[dependencies]
regex = "*"
log = "*"
env_logger = "*"
tokio = { version = "*", features = ["net", "io-util", "rt-multi-thread", "time", "macros", "sync"] }
