[package]
name = "neptune_lens"
version = "0.2.0"
edition = "2021"
publish = false

[dependencies]
anyhow = "=1.0.104"
bincode = "=1.3.3"
eframe = { version = "=0.31.1", default-features = false, features = ["glow", "x11"] }
image = { version = "=0.25.10", default-features = false, features = ["jpeg", "png", "bmp"] }
kstring = "=2.0.0"
log = "=0.4.35"
parking_lot = "=0.12.5"
rayon = "=1.12.0"
serde = { version = "=1.0.229", features = ["derive"] }
serde_json = "=1.0.154"
tract-onnx = { version = "=0.21.10", default-features = false }
walkdir = "=2.5.0"
