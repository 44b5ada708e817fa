[package]
name = "embedded_db"
version = "0.1.0"
edition = "2021"
publish = false

[dependencies]
postcard = { version = "*", features = ["alloc"] }
serde-json-core = "*"
