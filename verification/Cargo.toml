[package]
name = "game_of_life"
version = "0.1.0"
edition = "2021"
publish = false

[dependencies]
base64 = "0.21"
image = { version = "0.24", default-features = false, features = ["png"] }
rand = "0.8"
