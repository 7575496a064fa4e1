[package]
name = "bevy_ldtk_procgen"
version = "0.1.0"
edition = "2021"
publish = false

[dependencies]
rand = "=0.10.3"
bevy = { version = "=0.18.1", default-features = false, features = ["std", "multi_threaded", "bevy_state", "bevy_log", "bevy_asset", "bevy_window", "bevy_image", "bevy_camera", "bevy_sprite", "bevy_gizmos", "pan_camera"] }
bevy_ecs_ldtk = { version = "=0.14.0", default-features = false, features = ["internal_levels"] }
