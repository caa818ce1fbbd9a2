[package]
name = "prcpsp"
version = "0.1.0"
edition = "2021"
publish = false

[dependencies]
rand = { version = "0.5", default-features = false }
