[package]
name = "wallflower"
version = "0.1.0"
edition = "2021"
publish = false

[dependencies]
base64 = "*"
hmac = "*"
sha1 = "*"
uuid = { version = "*", features = ["v4"] }
serde = { version = "*", features = ["derive"] }
serde_json = "*"
threadpool = "*"
reqwest = { version = "*", default-features = false, features = ["blocking"] }
