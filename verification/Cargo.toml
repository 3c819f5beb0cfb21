[package]
name = "objdiff"
version = "0.1.0"
edition = "2021"
publish = false

[dependencies]
anyhow = "=1.0.104"
const_format = "=0.2.37"
dirs = "=5.0.1"
egui = "=0.23.0"
globset = "=0.4.20"
path-slash = "=0.2.1"
rfd = { version = "=0.12.1", default-features = false, features = ["xdg-portal"] }
self_update = { version = "=0.39.0", default-features = false }
serde = { version = "=1.0.229", features = ["derive"] }
shell-escape = "=0.1.5"
time = "=0.3.55"
winapi = { version = "=0.3.9", features = ["winbase"] }
