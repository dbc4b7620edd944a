[package]
name = "skipzone_app"
version = "0.1.0"
edition = "2021"
publish = false

[dependencies]
rayon = "1"
num-complex = "0.4"
