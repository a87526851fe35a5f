[package]
name = "bgawk"
version = "0.1.0"
edition = "2021"
publish = false

[dependencies]
avian2d = "0.2"
bevy = { version = "0.15", default-features = false, features = ["bevy_sprite", "bevy_render", "bevy_window", "bevy_color", "bevy_asset"] }
clap = { version = "4", features = ["derive"] }
figment = { version = "0.10", features = ["toml"] }
serde = { version = "1", features = ["derive"] }
xdg = "2"
