[package]
name = "todo_list"
version = "0.1.0"
edition = "2021"
publish = false

[dependencies]
eframe = { version = "0.27", default-features = false, features = ["glow"] }
serde = { version = "1", features = ["derive"] }
serde_json = "1"
