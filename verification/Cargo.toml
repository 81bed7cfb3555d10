[package]
name = "plo_eval"
version = "0.1.0"
edition = "2021"
publish = false

[dependencies]
rand = "0.8"
rand_pcg = "0.3"
serde = { version = "1", features = ["derive"] }
wgpu = "0.19"
bytemuck = { version = "1", features = ["derive"] }
once_cell = "1"
pollster = "0.3"
clap = { version = "4", features = ["derive"] }
rayon = "1"
chrono = "0.4"
