[package]
name = "gltf_snapshot"
version = "0.1.0"
edition = "2021"
publish = false

[dependencies]
anyhow = "1"
bytemuck = { version = "=1.25.2", features = ["derive"] }
cgmath = "=0.18.0"
clap = { version = "4", features = ["derive"] }
gltf = "=1.4.1"
image = { version = "=0.24.9", default-features = false, features = ["jpeg", "png"] }
jpeg-decoder = { version = "=0.3.2", default-features = false, features = ["platform_independent"] }
tokio = { version = "1", features = ["macros", "rt-multi-thread"] }
wgpu = "=24.0.5"
