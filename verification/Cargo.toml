[package]
name = "wordle_clone"
version = "0.1.0"
edition = "2021"
publish = false

[dependencies]
colored = "2"
rand = "0.8"
pbr = "1"
