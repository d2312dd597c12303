[package]
name = "refresh_reputation"
version = "0.1.0"
edition = "2021"
publish = false

[dependencies]
sp-runtime = "=49.0.0"
sp-std = "=14.0.0"
frame-support = "=49.0.0"
frame-system = "=49.0.0"
