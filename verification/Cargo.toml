[package]
name = "method_resolution"
version = "0.1.0"
edition = "2021"
publish = false

[dependencies]
arrayvec = "0.5"
serde_json = "1"
