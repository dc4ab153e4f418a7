[package]
name = "payment_hub"
version = "0.1.0"
edition = "2021"
publish = false

[dependencies]
blake3 = "*"
candid = "*"
ic-cdk = "*"
serde = { version = "*", features = ["derive"] }
lazy_static = "*"
