[package]
name = "tower_defense"
version = "0.1.0"
edition = "2021"
publish = false

[dependencies]
rand = "0.8"
noise = "0.9"
bevy = { version = "=0.16.1", default-features = false, features = ["bevy_sprite", "bevy_text", "bevy_winit", "x11"] }
