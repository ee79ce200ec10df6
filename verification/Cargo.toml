[package]
name = "reemember"
version = "0.1.0"
edition = "2021"
publish = false

[dependencies]
serde = { version = "1", features = ["derive"] }
serde_json = { version = "1", features = ["preserve_order"] }
csv = "1"
chrono = "0.4"
rusqlite = { version = "*", features = ["bundled"] }
thiserror = "*"
