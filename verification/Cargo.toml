[package]
name = "cub3d_notify"
version = "0.1.0"
edition = "2021"
publish = false

[dependencies]
tungstenite = "*"
url = "*"
notify-rust = "*"
systray = "*"

[dev-dependencies]
serde_json = "*"
