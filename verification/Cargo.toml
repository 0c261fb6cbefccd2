[package]
name = "newtons_cradle"
version = "0.1.0"
edition = "2021"
publish = false

[dependencies]
macroquad = { version = "0.4", features = ["audio"] }
