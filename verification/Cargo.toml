[package]
name = "match_three"
version = "0.1.0"
edition = "2021"
publish = false

[dependencies]
rand = "0.8"
bevy = { version = "0.5", default-features = false, features = ["render"] }
bevy_asset_loader = "0.4"
bevy_kira_audio = "0.5"
