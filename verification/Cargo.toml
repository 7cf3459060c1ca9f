[package]
name = "tinhorn"
version = "0.1.0"
edition = "2021"
publish = false

[dependencies]
base64 = "0.22"
clap = { version = "4", features = ["derive"] }
crossterm = "*"
flate2 = "1"
glam = "*"
image = { version = "*", default-features = false, features = ["png"] }
rand = "0.8"
rapier3d = "*"
ratatui = "*"
rodio = "*"
serde = { version = "1", features = ["derive"] }
serde_json = "1"
