[package]
name = "hello_rpc"
version = "0.1.0"
edition = "2021"
publish = false

[dependencies]
tokio = { version = "1", features = ["net", "rt-multi-thread", "macros", "io-util", "time"] }
clap = "*"
env_logger = "*"
