[package]
name = "oszilloskop"
version = "0.1.0"
edition = "2021"
publish = false

[dependencies]
cpal = "=0.13.5"
eframe = { version = "=0.22.0", default-features = false, features = ["glow", "default_fonts"] }
