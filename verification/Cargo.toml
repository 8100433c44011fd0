[package]
name = "tiny2fa"
version = "0.1.0"
edition = "2021"
publish = false

[dependencies]
hmac-sha1 = "*"
clap = { version = "*", features = ["derive"] }
dirs = "*"
serde = "*"
serde_derive = "*"
serde_yaml = "*"

[dev-dependencies]
base32 = "*"
