[package]
name = "dyndo"
version = "0.1.0"
edition = "2021"
publish = false

[dependencies]
dash-mpd = { version = "=0.20.5", default-features = false }
mp4-atom = "=0.17.0"
rison = "=0.1.0"
serde = { version = "=1.0.229", features = ["derive"] }
serde_json = "=1.0.154"
thiserror = "=2.0.21"
