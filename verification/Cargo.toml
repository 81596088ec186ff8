[package]
name = "raster_canvas"
version = "0.1.0"
edition = "2021"
publish = false

[dependencies]
eframe = { version = "0.32", default-features = false, features = ["default_fonts", "glow", "wayland", "x11"] }
egui = "0.32"
image = { version = "0.25", default-features = false, features = ["bmp", "jpeg", "png", "tga", "tiff"] }
rfd = { version = "0.15", default-features = false, features = ["xdg-portal", "async-std"] }
