[package]
name = "chimera_session"
version = "0.1.0"
edition = "2021"
publish = false

[dependencies]
bytevec2 = "*"
tokio = { version = "*", features = ["rt", "net", "process", "io-util", "macros", "sync"] }
users = "*"
chrono = "*"
argh = "*"
