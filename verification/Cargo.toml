[package]
name = "tree-map-base"
version = "0.1.0"
edition = "2021"
publish = false

[dependencies]
walkdir = "2"
eframe = { version = "0.30", default-features = false, features = ["default_fonts", "glow", "x11"] }
rfd = "0.15"
