[package]
name = "magic_mount"
version = "0.1.0"
edition = "2021"
publish = false

[dependencies]
anyhow = "1"
extattr = "1"
log = "0.4"
rustix = { version = "1", features = ["fs", "mount"] }
