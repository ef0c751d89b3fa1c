[package]
name = "lampo"
version = "0.1.0"
edition = "2021"
publish = false

[dependencies]
base64 = "*"
chrono = "*"
getopts = "*"
log = "*"
log4rs = "*"
mongodb = "*"
serde = { version = "*", features = ["derive"] }
tokio = { version = "*", features = ["full"] }
tokio-stream = "*"
trust-dns-resolver = "*"
