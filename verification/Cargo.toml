[package]
name = "uestc_client"
version = "0.1.0"
edition = "2021"
publish = false

[dependencies]
aes = "=0.9.3"
base64 = "=0.23.1"
rand = "=0.10.3"
reqwest = { version = "=0.13.5", default-features = false, features = ["blocking", "cookies", "query", "form"] }
qr2term = "=0.3.3"
