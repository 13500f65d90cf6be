[package]
name = "jaq_core"
version = "0.1.0"
edition = "2021"
publish = false

[dependencies]
ahash = "0.8"
indexmap = "2"
serde_json = "1"
