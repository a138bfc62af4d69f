[package]
name = "debugdump"
version = "0.1.0"
edition = "2021"
publish = false

[dependencies]
bevy_app = { version = "=0.13.2", default-features = false }
bevy_ecs = { version = "=0.13.2", default-features = false }
