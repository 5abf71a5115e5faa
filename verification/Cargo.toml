[package]
name = "aurora-hak-explorer"
version = "0.1.0"
edition = "2021"
publish = false

[dependencies]
tempfile = "3"
x11rb = "0.13"
zbus = "5"
libc = "0.2"
raw-window-handle = "0.6"
x11-dl = "2"
eframe = { version = "0.32", default-features = false, features = ["glow", "x11", "default_fonts"] }
