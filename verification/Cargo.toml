[package]
name = "wordpress-archive"
version = "0.1.0"
edition = "2021"
publish = false

[dependencies]
chrono = "0.4.45"
clap = { version = "4.5", features = ["derive"] }
humantime = "2.3"
indicatif = "0.17"
log = "0.4"
serde = { version = "1", features = ["derive"] }
serde_json = "1"
tempfile = "3"
thiserror = "2"
url = "2.5"
