[package]
name = "system_audio"
version = "0.1.0"
edition = "2021"
publish = false

[dependencies]
anyhow = "1"
base64 = "0.22"
cpal = "0.16"
crossbeam-channel = "0.5"
libloading = "0.8"
log = "0.4"
parking_lot = "0.12"
serde = { version = "1", features = ["derive"] }
thiserror = "2"
windows-sys = { version = "0.59", features = ["Win32_Foundation", "Win32_System_Registry"] }
