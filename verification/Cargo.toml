[package]
name = "super-visor"
version = "0.1.0"
edition = "2021"
publish = false

[dependencies]
futures = "0.3"
thiserror = "2"
tokio = { version = "1", features = ["macros", "rt", "rt-multi-thread", "signal", "sync", "time"] }
tokio-util = "0.7"
