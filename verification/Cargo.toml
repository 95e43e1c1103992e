[package]
name = "codex_pet_island"
version = "0.1.0"
edition = "2021"
publish = false

[dependencies]
serde = { version = "=1.0.229", features = ["derive"] }
serde_json = "=1.0.154"
tauri = { version = "=2.12.5", default-features = false, features = ["wry"] }
tauri-plugin-positioner = "=2.4.0"
tauri-plugin-store = "=2.5.0"
