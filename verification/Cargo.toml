[package]
name = "depmine"
version = "0.1.0"
edition = "2021"
publish = false

[dependencies]
roaring = "*"
json = "*"
clap = { version = "*", features = ["derive"] }
itertools = "*"
rayon = "*"
indicatif = "*"
