[package]
name = "coderec"
version = "0.1.0"
edition = "2021"
publish = false

[dependencies]
anyhow = "=1.0.104"
clap = "=4.6.7"
itertools = "=0.13.0"
log = "=0.4.34"
plotters = { version = "=0.3.7", default-features = false, features = ["svg_backend", "bitmap_backend", "bitmap_encoder", "all_series", "all_elements", "full_palette"] }
rayon = "=1.12.0"
rust-embed = { version = "=8.13.0", features = ["interpolate-folder-path"] }
serde = { version = "=1.0.229", features = ["derive"] }
serde_json = "=1.0.154"
simple_logger = "=5.2.0"
