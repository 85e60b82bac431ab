[package]
name = "botrail_scene"
version = "0.1.0"
edition = "2021"
publish = false

[dependencies]
nalgebra = "0.33"
thiserror = "2"
