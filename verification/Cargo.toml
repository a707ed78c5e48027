[package]
name = "dupe_rs"
version = "0.1.0"
edition = "2021"
publish = false

[dependencies]
blake3 = "=1.8.7"
chrono = { version = "=0.4.45", default-features = false, features = ["clock", "std"] }
crossbeam-channel = "=0.5.17"
eframe = { version = "=0.37.0", default-features = false, features = ["default_fonts", "glow", "x11"] }
egui = "=0.37.0"
egui_extras = "=0.37.0"
egui_material_icons = "=0.9.0"
humansize = "=2.1.3"
image = { version = "=0.25.10", default-features = false, features = ["png", "jpeg", "gif", "bmp", "tiff", "tga", "pnm", "qoi", "webp", "ico"] }
open = "=5.4.5"
raw-window-handle = "=0.6.2"
rayon = "=1.12.0"
rfd = { version = "=0.17.2", default-features = false, features = ["xdg-portal"] }
serde = { version = "=1.0.229", features = ["derive"] }
serde_json = "=1.0.154"
trash = "=5.2.9"
walkdir = "=2.5.0"
windows = { version = "=0.62.2", features = ["Win32_Foundation", "Win32_System_Com", "Win32_UI_Shell"] }
windows-sys = { version = "=0.61.2", features = ["Win32_Foundation", "Win32_Media_Audio", "Win32_Storage_FileSystem"] }

[dev-dependencies]
tempfile = "=3.27.0"
