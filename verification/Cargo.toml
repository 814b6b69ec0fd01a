[package]
name = "tool_recap_rust"
version = "0.1.0"
edition = "2021"
publish = false

[dependencies]
anyhow = "1"
eframe = { version = "*", default-features = false, features = ["glow", "x11", "default_fonts"] }
reqwest = { version = "*", default-features = false, features = ["blocking", "json", "multipart", "rustls-tls"] }
rfd = { version = "*", default-features = false, features = ["xdg-portal", "tokio"] }
semver = "1"
serde = { version = "1", features = ["derive"] }
serde_json = "1"
sha2 = "*"
tauri-winrt-notification = "*"
