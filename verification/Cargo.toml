[package]
name = "shokushu"
version = "0.1.0"
edition = "2021"
publish = false

[dependencies]
anyhow = "1"
btleplug = "*"
clap = { version = "4", features = ["derive"] }
cpal = "*"
futures = "0.3"
thiserror = "*"
tokio = { version = "1", features = ["macros", "rt-multi-thread", "signal", "sync", "time"] }
uuid = "1"
