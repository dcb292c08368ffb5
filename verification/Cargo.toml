[package]
name = "kd_particles"
version = "0.1.0"
edition = "2021"
publish = false

[dependencies]
rand = "=0.8.8"
apng = "=0.3.4"
image = "0.24"
plotters = { version = "=0.3.7", default-features = false, features = ["bitmap_backend", "bitmap_encoder", "point_series", "full_palette"] }
