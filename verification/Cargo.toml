[package]
name = "rollback_sim"
version = "0.1.0"
edition = "2021"
publish = false

[dependencies]
rand = "0.8"
bytemuck = { version = "1", features = ["derive"] }
clap = { version = "4", features = ["derive"] }
ggrs = "0.10"
bevy_ggrs = "0.15"
bevy = { version = "0.13", default-features = false }
