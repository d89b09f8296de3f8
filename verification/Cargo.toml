[package]
name = "alertcode"
version = "0.1.0"
edition = "2021"
publish = false

[dependencies]
base32768 = "*"
base65536 = "*"
hmac = "*"
sha1 = "*"
chrono = "*"
clap = { version = "*", features = ["derive"] }
dateparser = "*"
urlencoding = "*"
