[package]
name = "barnacle"
version = "0.1.0"
edition = "2021"
publish = false

[dependencies]
agdb = "*"
heck = "*"
chrono = "*"
clap = { version = "*", features = ["derive"] }
colored = "*"
human-panic = "*"
tracing = "*"
tracing-subscriber = { version = "*", features = ["env-filter"] }
xdg = "*"
compress-tools = "*"
walkdir = "*"
