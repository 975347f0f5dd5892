[package]
name = "feedburst"
version = "0.1.0"
edition = "2021"
publish = false

[dependencies]
chrono = "*"
regex = "*"
clap = "2"
xdg = "*"
syndication = "*"
reqwest = { version = "*", default-features = false, features = ["blocking", "rustls-tls"] }
