[package]
name = "video_tagger"
version = "0.1.0"
edition = "2021"
publish = false

[dependencies]
chrono = { version = "0.4", default-features = false, features = ["std", "now", "serde"] }
base64 = "0.22"
serde = { version = "1", features = ["derive"] }
serde_json = "1"
walkdir = "2"
tempfile = "3"
reqwest = { version = "0.12", default-features = false, features = ["blocking", "json"] }
image = { version = "0.25", default-features = false, features = ["png", "jpeg"] }
