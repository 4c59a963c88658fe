[package]
name = "tcal"
version = "0.1.0"
edition = "2021"
publish = false

[dependencies]
toml_edit = "*"
ical = "*"
chrono = "*"
uuid = { version = "*", features = ["v4"] }
clap = { version = "*", features = ["derive"] }
anyhow = "*"
log = "*"
edit = "*"
