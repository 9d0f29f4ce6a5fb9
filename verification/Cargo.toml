[package]
name = "authenticator"
version = "0.1.0"
edition = "2021"
publish = false

[dependencies]
data-encoding = "2"
hmac = "0.12"
sha1 = "0.10"
chrono = { version = "0.4", default-features = false, features = ["clock", "std"] }
rand = "0.8"
serde = { version = "1", features = ["derive"] }
serde_json = "1"
