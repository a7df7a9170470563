[package]
name = "ironflood"
version = "0.1.0"
edition = "2021"
publish = false

[dependencies]
rand = "=0.9.5"
clap = { version = "=4.6.7", features = ["derive"] }
egui = "=0.36.2"
eframe = { version = "=0.36.2", default-features = false, features = ["glow", "x11", "default_fonts"] }
