[package]
name = "rusty_gif"
version = "0.1.0"
edition = "2021"
publish = false

[dependencies]
color_quant = "1.1.0"
