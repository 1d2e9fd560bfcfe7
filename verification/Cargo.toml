[package]
name = "orbital"
version = "0.1.0"
edition = "2021"
publish = false

[dependencies]
ringbuffer = "*"
kdtree = "*"
rand = "0.9"
rayon = "1"
raylib = "*"
