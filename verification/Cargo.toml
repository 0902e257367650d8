[package]
name = "game"
version = "0.1.0"
edition = "2021"
publish = false

[dependencies]
bevy = { version = "=0.17.3", default-features = false, features = ["std", "async_executor", "multi_threaded", "bevy_asset", "bevy_color", "bevy_camera", "bevy_core_pipeline", "bevy_gizmos", "bevy_image", "bevy_log", "bevy_mesh", "bevy_render", "bevy_shader", "bevy_sprite", "bevy_sprite_render", "bevy_window", "bevy_winit", "x11"] }
