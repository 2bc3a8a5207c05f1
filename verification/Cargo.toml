[package]
name = "tobes-rs"
version = "0.1.0"
edition = "2021"
publish = false

[dependencies]
anyhow = "1"
clap = { version = "4", features = ["derive"] }
eframe = { version = "0.31", default-features = false, features = ["glow", "x11", "default_fonts"] }
egui = "0.31"
egui_plot = "0.31"
serde = { version = "1", features = ["derive"] }
serde_json = "1"
serialport = { version = "4", default-features = false }
