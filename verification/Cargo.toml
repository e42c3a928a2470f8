[package]
name = "ray_tracer"
version = "0.1.0"
edition = "2021"

[dependencies]
rand = "0.8"
clap = { version = "4", features = ["derive"] }
image = "0.24"
indicatif = "0.17"
rayon = "1"
