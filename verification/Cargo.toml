[package]
name = "stove"
version = "0.1.0"
edition = "2021"
publish = false

[dependencies]
unreal_asset = "=0.1.16"
egui = { version = "0.24", features = ["persistence"] }
egui-notify = "0.11"
ron = "0.8"
dirs = "5"
hex = "0.4"
aes = "0.8"
repak = "0.1"
rfd = { version = "0.12", default-features = false }
miniquad = "0.3"
glam = "0.24"
