[package]
name = "nostd_async"
version = "0.1.0"
edition = "2021"
publish = false

[dependencies]
bare-metal = "=1.0.0"
