[package]
name = "chatan"
version = "0.1.0"
edition = "2021"
publish = false

[dependencies]
chrono = { version = "0.4", features = ["serde"] }
counter = "*"
humantime = "*"
image = { version = "*", default-features = false, features = ["png", "jpeg", "gif"] }
indicatif = "*"
rayon = "1"
reqwest = { version = "0.12", default-features = false, features = ["blocking", "json", "rustls-tls"] }
scraper = "*"
serde = { version = "1", features = ["derive"] }
serde_json = "1"
structopt = "0.3"
