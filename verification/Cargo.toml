[package]
name = "kiri_roguelike"
version = "0.1.0"
edition = "2021"
publish = false

[dependencies]
macroquad = "*"
simdnoise = "*"
