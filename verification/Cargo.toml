[package]
name = "advent_of_code"
version = "0.1.0"
edition = "2021"
publish = false

[dependencies]
ndarray = "0.16"
petgraph = "0.6"
rand = "0.8"
regex = "1"
image = { version = "0.25", default-features = false, features = ["png"] }
