[package]
name = "todolist"
version = "0.1.0"
edition = "2021"
publish = false

[dependencies]
chrono = { version = "0.4", features = ["serde"] }
cursive = "*"
landlock = "*"
log = "0.4"
serde = { version = "1", features = ["derive"] }
serde_json = "1"
