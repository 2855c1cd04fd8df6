[package]
name = "kaleidomo_core"
version = "0.1.0"
edition = "2021"
publish = false

[dependencies]
sha2 = "*"
rand_chacha = "*"
rand_core = "*"
image = "*"
rayon = "*"
serde = { version = "*", features = ["derive"] }
anyhow = "*"
log = "*"
bytemuck = { version = "*", features = ["derive"] }
pollster = "*"
wgpu = "*"
