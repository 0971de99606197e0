[package]
name = "heriheri"
version = "0.1.0"
edition = "2021"
publish = false

[dependencies]
base64 = "0.22"
chacha20poly1305 = "0.10"
hex = "0.4"
regex = "1"
mime_guess = "2"
md5 = "0.7"
serde = { version = "1", features = ["derive"] }
serde_json = "1"
reqwest = { version = "0.12", default-features = false, features = ["blocking", "json"] }
