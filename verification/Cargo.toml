[package]
name = "prompt_proxy"
version = "0.1.0"
edition = "2021"
publish = false

[dependencies]
dotenvy = "0.15"
reqwest = { version = "0.11", default-features = false, features = ["rustls-tls"] }
rocket = "0.5"
rocket_cors = "0.6"
