[package]
name = "text_read"
version = "0.1.0"
edition = "2021"
publish = false

[dependencies]
chrono = "0.4"
fltk = "1"
regex = "1"
rfd = "*"
serde = { version = "1", features = ["derive"] }
serde_json = "1"
walkdir = "2"
