[package]
name = "flow_core"
version = "0.1.0"
edition = "2021"
publish = false

[dependencies]
bumpalo = { version = "3", features = ["collections"] }
memmap = "0.7"
