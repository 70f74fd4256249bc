[package]
name = "fastwarc"
version = "0.1.0"
edition = "2021"
publish = false

[dependencies]
encoding = "=0.2.33"
md-5 = "=0.10.6"
sha1 = "=0.10.7"
sha2 = "=0.10.9"
digest = "=0.10.7"
data-encoding = "=2.11.1"
uuid = { version = "=1.29.0", features = ["v4"] }
chrono = "=0.4.45"
zlib-rs = "=0.6.8"
getrandom = "=0.4.3"
