[package]
name = "rapier-bevy"
version = "0.1.0"
edition = "2021"
publish = false

[dependencies]
bevy = { version = "0.16", default-features = false, features = ["std", "bevy_asset", "bevy_color", "bevy_core_pipeline", "bevy_log", "bevy_pbr", "bevy_render", "bevy_scene", "bevy_sprite", "bevy_text", "bevy_ui", "bevy_window", "multi_threaded"] }
bevy_rapier3d = "0.31"
bincode = "1"
crossbeam-channel = "0.5"
serde = { version = "1", features = ["derive"] }
tobj = "4"
