[package]
name = "yagg"
version = "0.1.0"
edition = "2021"
publish = false

[dependencies]
chrono = "=0.4.45"
dirs = "=7.0.0"
git2 = { version = "0.20", default-features = false }
parking_lot = "=0.12.5"
serde = { version = "=1.0.229", features = ["derive"] }
tauri = { version = "=2.12.5", default-features = false }
thiserror = "=2.0.21"
