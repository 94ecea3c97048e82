[package]
name = "manifold"
version = "0.1.0"
edition = "2021"
publish = false

[dependencies]
nu-ansi-term = "0.50"
once_cell = "1"
regex = "1"
