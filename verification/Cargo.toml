[package]
name = "gts"
version = "0.1.0"
edition = "2021"
publish = false

[dependencies]
uuid = { version = "1", features = ["v5"] }
serde_json = "1"
walkdir = "2"
shellexpand = "3"
