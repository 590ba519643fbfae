[package]
name = "bigfolders"
version = "0.1.0"
edition = "2021"
publish = false

[dependencies]
csv = "*"
dirs = "*"
futures = "*"
chrono = "*"
tokio = { version = "*", features = ["rt-multi-thread", "macros", "time"] }
