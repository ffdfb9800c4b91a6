[package]
name = "dux"
version = "0.1.0"
edition = "2021"
publish = false

[dependencies]
anyhow = "1"
home = "*"
rusqlite = { version = "*", features = ["bundled"] }
serde_json = "1"
unicode-width = "*"
