[package]
name = "rinha_rust"
version = "0.1.0"
edition = "2021"
publish = false

[dependencies]
libc = "0.2"
serde = "1"
serde_json = { version = "1", features = ["preserve_order"] }
threadpool = "1.8"
