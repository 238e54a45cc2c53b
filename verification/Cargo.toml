[package]
name = "occ_secure_exports"
version = "0.1.0"
edition = "2021"
publish = false

[dependencies]
serde = { version = "1", features = ["derive"] }
serde_json = "1"
keyring = "3"
tokio = { version = "1", features = ["rt"] }
tokio-util = { version = "0.7", features = ["io", "io-util"] }
aws-sdk-s3 = { version = "1", default-features = false, features = ["rt-tokio"] }
