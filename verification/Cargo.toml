[package]
name = "aq_lcd_grab"
version = "0.1.0"
edition = "2021"
publish = false

[dependencies]
anyhow = "1"
clap = { version = "4", features = ["derive"] }
ctrlc = "3"
eframe = { version = "*", default-features = false, features = ["default_fonts", "glow", "x11"] }
heapless = "0.8"
image = { version = "0.25", default-features = false, features = ["png"] }
serialport = { version = "4", default-features = false }
