[package]
name = "lut_core"
version = "0.1.0"
edition = "2021"
publish = false

[dependencies]
aes-gcm = "0.10"
base64 = "0.22"
serde = { version = "1", features = ["derive"] }
