[package]
name = "jot"
version = "1.0.0"
edition = "2021"
publish = false

[dependencies]
anyhow = "1"
async-channel = "2"
chrono = "0.4"
cpal = "0.15"
dirs = "5"
glib = "0.20"
gtk4 = { version = "0.9", features = ["v4_12"] }
hex = "0.4"
libadwaita = { version = "0.7", features = ["v1_5"] }
libc = "0.2"
reqwest = { version = "0.12", default-features = false, features = ["blocking", "multipart", "rustls-tls"] }
rusqlite = { version = "0.32", features = ["backup", "bundled", "chrono"] }
serde = { version = "1", features = ["derive"] }
serde_json = "1"
sha2 = "0.10"
slug = "0.1"
toml = "0.8"
tracing = "0.1"
tracing-subscriber = { version = "0.3", features = ["env-filter"] }
uuid = { version = "1", features = ["v4"] }
walkdir = "2"
windows-sys = { version = "0.59", features = ["Win32_UI_WindowsAndMessaging"] }
zip = { version = "2", default-features = false, features = ["deflate"] }
