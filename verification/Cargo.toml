[package]
name = "drone_swarm"
version = "0.1.0"
edition = "2021"
publish = false

[dependencies]
avian3d = { version = "=0.6.1", default-features = false, features = ["3d", "f32", "parry-f32", "default-collider", "xpbd_joints"] }
bevy = { version = "=0.18.1", default-features = false, features = ["std", "bevy_asset", "bevy_camera", "bevy_color", "bevy_gizmos", "bevy_light", "bevy_mesh", "bevy_pbr", "bevy_window", "keyboard", "mouse"] }
nalgebra = "=0.35.0"
rand = "=0.8.8"
