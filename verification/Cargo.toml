[package]
name = "cliproam"
version = "0.1.0"
edition = "2021"
publish = false

[dependencies]
sha2 = "0.10"
url = "2"
chrono = "0.4"
image = { version = "0.25", default-features = false, features = ["webp", "bmp", "png"] }
indexmap = { version = "2", features = ["serde"] }
serde = { version = "1", features = ["derive"] }
serde_json = "1"
base64 = "0.22"
uuid = { version = "1", features = ["v4"] }
rusqlite = { version = "*", features = ["bundled"] }
