[package]
name = "cluster-stall-repro"
version = "0.1.0"
edition = "2021"
publish = false

[dependencies]
clap = { version = "4", features = ["derive"] }
env_logger = "*"
hdrhistogram = "7"
redis = { version = "*", features = ["cluster-async", "tokio-comp", "tokio-rustls-comp", "tls-rustls-insecure"] }
tokio = { version = "1", features = ["macros", "rt-multi-thread", "time"] }
