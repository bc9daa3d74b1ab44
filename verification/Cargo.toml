[package]
name = "boat_journey"
version = "0.1.0"
edition = "2021"
publish = false

[dependencies]
rand = "=0.8.8"
rand_isaac = "=0.3.0"
line_2d = "=0.6.0"
coord_2d = "=0.4.2"
perlin2 = "=0.1.1"
