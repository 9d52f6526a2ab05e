[package]
name = "baze64"
version = "0.1.0"
edition = "2021"
publish = false

[dependencies]
clap = { version = "*", features = ["derive"] }
color-eyre = "*"
hex = "*"

[dev-dependencies]
base64 = "*"
