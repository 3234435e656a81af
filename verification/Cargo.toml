[package]
name = "figure_catalog"
version = "0.1.0"
edition = "2021"
publish = false

[dependencies]
base64 = "0.22"
glob = "0.3"
log = "0.4"
serde = { version = "1", features = ["derive"] }
serde_json = "1"
tauri = { version = "2", default-features = false }
