[package]
name = "promtext"
version = "0.1.0"
edition = "2021"
publish = false

[dependencies]
metrics = "*"
num-format = "*"
tokio = { version = "*", features = ["sync", "macros", "rt"] }
