[package]
name = "revy"
version = "0.1.0"
edition = "2021"
publish = false

[dependencies]
bevy = { version = "0.15", default-features = false }
rerun = { version = "0.20", default-features = false, features = ["sdk"] }
ron = "0.8"
