[package]
name = "nadt"
version = "0.1.0"
edition = "2021"
publish = false

[dependencies]
aes = "0.8"
cipher = "0.4"
base64 = "0.22"
serde = { version = "1", features = ["derive"] }
serde_json = "1"
chrono = { version = "0.4", default-features = false, features = ["clock"] }
notify = { version = "6", default-features = false }
image = { version = "0.25", default-features = false, features = ["png"] }
