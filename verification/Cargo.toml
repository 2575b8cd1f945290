[package]
name = "water_rooms"
version = "0.1.0"
edition = "2021"
publish = false

[dependencies]
rand = "0.8"
eframe = { version = "0.21", default-features = false, features = ["glow", "default_fonts"] }
egui = { version = "0.21", default-features = false }
