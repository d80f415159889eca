[package]
name = "internet_identity"
version = "0.1.0"
edition = "2021"
publish = false

[dependencies]
base64 = "=0.22.1"
sha2 = { version = "=0.10.9", features = ["oid"] }
rsa = "=0.9.10"
candid = "=0.10.39"
ic-cdk = { version = "=0.13.6", features = ["transform-closure"] }
serde = { version = "=1.0.229", features = ["derive"] }
serde_json = "=1.0.154"
serde_bytes = "=0.11.19"
