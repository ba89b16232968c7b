[package]
name = "youhavemail"
version = "0.1.0"
edition = "2021"
publish = false

[dependencies]
rusqlite = { version = "*", features = ["bundled"] }
chacha20poly1305 = "*"
serde = { version = "*", features = ["derive"] }
serde_json = "*"
