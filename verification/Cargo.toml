[package]
name = "snake"
version = "0.1.0"
edition = "2021"
publish = false

[dependencies]
rand = "0.7"
rand_distr = "0.2"
itertools = "*"
rayon = "*"
piston_window = "*"
piston2d-graphics = "*"
