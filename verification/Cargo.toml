[package]
name = "cykv"
version = "0.1.0"
edition = "2021"
publish = false

[dependencies]
bson = "2"
lru = "0.7"
serde = { version = "1", features = ["derive"] }
serde_json = "1"
failure = "0.1"
