[package]
name = "x509-path-finder"
version = "0.1.0"
edition = "2021"
publish = false

[dependencies]
url = "2"
x509-cert = "0.2"
x509-client = "*"
tokio = { version = "1", features = ["rt"] }
rustls-webpki = "0.101"
