[package]
name = "herdr-picker"
version = "0.1.0"
edition = "2021"
publish = false

[dependencies]
base64 = "0.22"
fs2 = "0.4"
ratatui = "0.29"
serde = { version = "1", features = ["derive"] }
serde_json = "1"
tempfile = "3"
thiserror = "2"
unicode-width = "0.2"
vt100 = "0.15"
wait-timeout = "0.2"
