[package]
name = "distance_field"
version = "0.2.0"
edition = "2021"
publish = false

[dependencies]
bitvec = "1"
spiral = "*"
image = "*"
