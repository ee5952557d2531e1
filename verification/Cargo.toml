[package]
name = "log-scouter"
version = "0.0.22"
edition = "2021"
publish = false

[dependencies]
anyhow = "1"
chrono = "0.4"
clap = { version = "4", features = ["derive"] }
flate2 = "1"
getrandom = "0.2"
regex = "1"
reqwest = { version = "0.12", default-features = false, features = ["json", "rustls-tls"] }
self-replace = "1"
serde = { version = "1", features = ["derive"] }
serde_json = "1"
shell-words = "1"
tar = "0.4"
tiny_http = "0.12"
tokio = { version = "1", features = ["rt", "net", "time", "macros"] }
zip = { version = "2", default-features = false, features = ["deflate"] }
