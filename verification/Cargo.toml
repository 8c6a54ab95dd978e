[package]
name = "akita"
version = "0.1.0"
edition = "2021"
publish = false

[dependencies]
rand_core = "0.6"
rayon = "1"
