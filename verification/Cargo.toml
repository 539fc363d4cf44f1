[package]
name = "rust_go_fish"
version = "0.1.0"
edition = "2021"
publish = false

[dependencies]
cardpack = "0.4"
rand = "0.8"
