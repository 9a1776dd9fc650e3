[package]
name = "nacelle"
version = "0.1.0"
edition = "2021"
publish = false

[dependencies]
fontdue = "0.9"
