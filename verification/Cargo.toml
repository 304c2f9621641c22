[package]
name = "webarchiver"
version = "0.1.0"
edition = "2021"
publish = false

[dependencies]
urlencoding = "*"
reqwest = { version = "*", default-features = false, features = ["multipart"] }
tokio = { version = "*", default-features = false, features = ["rt-multi-thread", "macros", "fs", "time"] }
futures = "*"
log = "*"
env_logger = "*"
clap = "*"
