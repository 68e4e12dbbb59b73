[package]
name = "physics_pipeline"
version = "0.1.0"
edition = "2021"
publish = false

[dependencies]
rapier2d = "*"
