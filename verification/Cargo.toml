[package]
name = "brush_mesh"
version = "0.1.0"
edition = "2021"
publish = false

[dependencies]
anyhow = "=1.0.104"
ball-tree = "=0.5.2"
bytemuck = { version = "=1.25.2", features = ["derive", "extern_crate_alloc"] }
clap = { version = "=4.6.7", features = ["derive"] }
glam = "=0.34.2"
hashbrown = "=0.17.1"
image = { version = "=0.25.10", default-features = false, features = ["png"] }
itertools = "=0.15.0"
log = "=0.4.35"
meshopt = "=0.7.0"
pollster = "*"
rand = "=0.10.3"
rayon = "=1.12.0"
rustc-hash = "=2.1.3"
serde = { version = "=1.0.229", features = ["derive"] }
serde_json = "=1.0.154"
thiserror = "=2.0.21"
tokio = { version = "=1.54.1", features = ["fs", "io-util", "rt", "sync"] }
wgpu = { version = "*", default-features = false, features = ["std", "vulkan", "wgsl"] }
