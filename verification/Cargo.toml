[package]
name = "media_rating"
version = "0.1.0"
edition = "2021"
publish = false

[dependencies]
rand = "*"
calamine = "*"
rust_xlsxwriter = "*"
serde_json = "*"
image = { version = "*", default-features = false, features = ["png", "jpeg"] }
reqwest = { version = "*", default-features = false, features = ["blocking", "cookies", "rustls-tls"] }
