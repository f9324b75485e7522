[package]
name = "runi"
version = "0.1.0"
edition = "2021"
publish = false

[dependencies]
anyhow = "=1.0.104"
eframe = { version = "=0.36.2", default-features = false, features = ["glow", "x11", "default_fonts"] }
egui = "=0.36.2"
env_logger = { version = "=0.11.11", default-features = false }
freedesktop_entry_parser = "=1.3.0"
log = "=0.4.34"
nix = { version = "=0.31.3", features = ["fs"] }
serde = { version = "=1.0.229", features = ["derive"] }
strsim = "=0.11.1"
toml = "=1.1.0"
walkdir = "=2.5.0"
