[package]
name = "disk_flashlight"
version = "0.1.0"
edition = "2021"
publish = false

[dependencies]
anyhow = "=1.0.104"
crossbeam-channel = "=0.5.17"
rayon = "=1.12.0"
log = "=0.4.35"
env_logger = "=0.11.11"
egui = "=0.37.0"
eframe = { version = "=0.37.0", default-features = false, features = ["default_fonts", "wgpu"] }
windows-sys = { version = "=0.61.2", features = ["Win32_Foundation", "Win32_Storage_FileSystem", "Win32_System_Console", "Win32_System_IO", "Win32_UI_Shell", "Win32_UI_WindowsAndMessaging"] }
