[package]
name = "flip_seven"
version = "0.1.0"
edition = "2021"
publish = false

[dependencies]
rand = { version = "0.9", features = ["small_rng"] }
clap = { version = "4", features = ["derive"] }
