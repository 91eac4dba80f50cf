[package]
name = "ablemod"
version = "0.1.0"
edition = "2021"
publish = false

[dependencies]
clap = { version = "4", features = ["derive"] }
eframe = { version = "0.29", default-features = false, features = ["default_fonts", "glow"] }
flate2 = "1"
hound = "3"
rfd = { version = "0.15", default-features = false, features = ["xdg-portal", "async-std"] }
sdl2 = { version = "0.37", features = ["ttf"] }
xmltree = "0.11"
