[package]
name = "turbovec"
version = "0.1.0"
edition = "2021"
publish = false

[dependencies]
faer = "0.20"
ndarray = "0.16"
rayon = "1"
