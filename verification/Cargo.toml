[package]
name = "squark"
version = "0.1.0"
edition = "2021"
publish = false

[dependencies]
rand = "0.5"
serde_json = "1.0"
uuid = "0.7"
