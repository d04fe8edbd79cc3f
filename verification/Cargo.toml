[package]
name = "dionysus"
version = "0.1.0"
edition = "2021"
publish = false

[dependencies]
freedesktop-desktop-entry = "0.7"
serde_json = "1"
xdg = "3"
notify = "8"
gtk4 = "0.9"
