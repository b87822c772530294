[package]
name = "music_typer"
version = "0.1.0"
edition = "2021"
publish = false

[dependencies]
bevy = { version = "=0.7.0", default-features = false, features = ["render"] }
env_logger = "=0.8.4"
log = "=0.4.35"
