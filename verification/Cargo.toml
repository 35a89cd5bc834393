[package]
name = "sdft"
version = "0.1.0"
edition = "2021"
publish = false

[dependencies]
blake3 = "1"
eframe = { version = "*", default-features = false, features = ["default_fonts", "glow", "x11"] }
