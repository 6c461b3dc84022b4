[package]
name = "fellows"
version = "0.1.0"
edition = "2021"
publish = false

[dependencies]
sp-core = "*"
parity-scale-codec = "*"
tokio = { version = "*", features = ["rt", "time", "macros"] }
