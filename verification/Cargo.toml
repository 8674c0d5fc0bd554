[package]
name = "bastard_minesweeper"
version = "0.1.0"
edition = "2021"
publish = false

[dependencies]
clap = { version = "4", features = ["derive"] }
eframe = { version = "*", default-features = false, features = ["glow", "default_fonts", "x11"] }
egui_extras = { version = "*", default-features = false }
indicatif = "*"
itertools = "*"
ndarray = "*"
rand = "0.9"
rayon = "1"
