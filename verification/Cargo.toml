[package]
name = "fedramp_controls"
version = "0.1.0"
edition = "2021"
publish = false

[dependencies]
build_html = "*"
calamine = "*"
reqwest = { version = "*", default-features = false, features = ["rustls-tls"] }
tokio = { version = "*", features = ["macros", "rt-multi-thread"] }
