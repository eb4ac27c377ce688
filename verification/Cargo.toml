[package]
name = "world"
version = "0.1.0"
edition = "2021"
publish = false

[dependencies]
dashmap = "*"
parking_lot = "0.12"
tracing = "0.1"
