[package]
name = "game2048"
version = "0.1.0"
edition = "2021"
publish = false

[dependencies]
stdweb = "0.4"
