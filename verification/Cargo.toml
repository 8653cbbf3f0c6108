[package]
name = "playlist_ui"
version = "0.1.0"
edition = "2021"
publish = false

[dependencies]
sled = "*"
lofty = "*"
walkdir = "*"
dirs = "*"
serde = { version = "*", features = ["derive"] }
serde_json = "*"

[dev-dependencies]
tempfile = "*"
