[package]
name = "gagbot"
version = "0.1.0"
edition = "2021"
publish = false

[dependencies]
corncobs = { version = "=0.1.4", features = ["std"] }
zstd = "=0.14.0"
flume = "=0.12.0"
tokio = { version = "=1.53.2", features = ["rt-multi-thread", "macros", "time", "sync"] }
croner = "=4.0.1"
chrono = "=0.4.45"
