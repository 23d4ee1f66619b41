[package]
name = "clothes_qa"
version = "0.1.0"
edition = "2021"
publish = false

[dependencies]
anyhow = "1"
base64 = "0.22"
rusqlite = { version = "0.37", features = ["bundled"] }
serde = { version = "1", features = ["derive"] }
umya-spreadsheet = "2"
uuid = { version = "1", features = ["v4"] }
