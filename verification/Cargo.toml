[package]
name = "clusterbanned"
version = "0.1.0"
edition = "2021"
publish = false

[dependencies]
regex = "1"
serde_json = "1"
sysinfo = "0.29"
tauri = { version = "2", default-features = false }
