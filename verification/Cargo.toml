[package]
name = "ubersweeper"
version = "0.1.0"
edition = "2021"
publish = false

[dependencies]
rand = "0.8"
gtk4 = "0.9"
pango = "0.20"
pangocairo = "0.20"
