[package]
name = "noteban"
version = "0.1.0"
edition = "2021"
publish = false

[dependencies]
sha2 = "*"
chrono = "*"
serde = { version = "*", features = ["derive"] }
serde_yaml = "*"
uuid = { version = "*", features = ["v4"] }
walkdir = "*"
directories = "*"
rusqlite = { version = "*", features = ["bundled"] }
