[package]
name = "graph"
version = "0.1.0"
edition = "2021"
publish = false

[dependencies]
egui = "0.22"
eframe = { version = "0.22", default-features = false, features = ["default_fonts", "glow"] }
egui_extras = { version = "0.22", features = ["image"] }
image = { version = "0.24", default-features = false, features = ["png"] }
