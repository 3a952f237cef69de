[package]
name = "koharu"
version = "0.1.0"
edition = "2021"
publish = false

[dependencies]
anyhow = "=1.0.104"
image = { version = "=0.25.10", default-features = false, features = ["png", "jpeg"] }
imageproc = { version = "=0.25.1", default-features = false }
fast_image_resize = "=5.5.0"
clap = { version = "=4.6.7", features = ["derive"] }
nvml-wrapper = "=0.13.0"
tokenizers = { version = "=0.23.2", default-features = false, features = ["fancy-regex"] }
