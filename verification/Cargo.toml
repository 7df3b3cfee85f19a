[package]
name = "neat_ai_forests"
version = "0.1.0"
edition = "2021"
publish = false

[dependencies]
sha2 = "0.10"
rand = "0.9"
serde = { version = "1", features = ["derive"] }
serde_json = "1"
clap = { version = "4", features = ["derive"] }
wgpu = "*"
pollster = "0.4"
bytemuck = { version = "1", features = ["derive"] }

[dev-dependencies]
tempfile = "3"
