[package]
name = "render_bundle"
version = "0.1.0"
edition = "2021"
publish = false

[dependencies]
fxhash = "0.2.1"
nalgebra = "0.33"
