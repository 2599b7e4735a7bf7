[package]
name = "tracetext"
version = "0.1.0"
edition = "2021"
publish = false

[dependencies]
anyhow = "*"
arboard = { version = "*", default-features = false }
compact_str = "*"
eframe = { version = "*", default-features = false, features = ["default_fonts", "glow", "x11"] }
egui_extras = { version = "*", default-features = false }
libreoffice-pure = "*"
pdfium-render = "*"
rayon = "*"
rfd = { version = "*", default-features = false, features = ["xdg-portal", "tokio"] }
rust_xlsxwriter = "*"
strsim = "*"
unicode-normalization = "*"
