[package]
name = "adventure"
version = "0.1.0"
edition = "2021"
publish = false

[dependencies]
rustc-hash = "=2.1.3"
bytemuck = { version = "=1.25.2", features = ["derive"] }
serde = { version = "=1.0.229", features = ["derive"] }
ron = "=0.12.3"
rayon = "=1.12.0"
rapier3d = "=0.32.0"
wgpu = { version = "=29.0.4", default-features = false, features = ["std", "wgsl"] }
bevy = { version = "=0.19.1", default-features = false, features = ["std", "bevy_state", "bevy_ui", "bevy_text", "bevy_light", "bevy_log", "bevy_render", "bevy_window", "bevy_picking", "mesh_picking", "mouse", "keyboard"] }
