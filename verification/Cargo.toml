[package]
name = "keyprompt"
version = "0.1.0"
edition = "2021"
publish = false

[dependencies]
crossterm = { version = "*", features = ["event-stream"] }
futures = "*"
thiserror = "*"
