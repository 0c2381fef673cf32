[package]
name = "task_store"
version = "0.1.0"
edition = "2021"
publish = false

[dependencies]
itertools = "*"
native_db = "0.8"
native_model = "0.4"
once_cell = "1"
serde = { version = "1", features = ["derive"] }
tauri = { version = "2", default-features = false }
