[package]
name = "tsukuyomi"
version = "0.1.0"
edition = "2021"
publish = false

[dependencies]
mime = "0.3"
cookie = { version = "*", features = ["percent-encode"] }
serde = { version = "*", features = ["derive"] }
serde_json = "*"
serde_plain = "*"
serde_urlencoded = "*"
