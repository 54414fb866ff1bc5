[package]
name = "card_connect"
version = "0.1.0"
edition = "2021"
publish = false

[dependencies]
anyhow = "*"
json = "*"
md5 = "*"
reqwest = { version = "*", default-features = false, features = ["blocking", "json", "rustls-tls"] }
serde = { version = "*", features = ["derive"] }
zip = "*"
