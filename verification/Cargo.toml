[package]
name = "pdr"
version = "0.2.0"
edition = "2021"
publish = false

[dependencies]
eframe = { version = "=0.37.0", default-features = false, features = ["glow", "default_fonts", "x11"] }
image = { version = "=0.25.10", default-features = false, features = ["png"] }
pdfium-render = "=0.9.5"
rfd = { version = "=0.15.4", default-features = false, features = ["xdg-portal", "tokio"] }
objc2 = "=0.6.5"
objc2-app-kit = "=0.3.2"
objc2-foundation = "=0.3.2"
