[package]
name = "snake_neat"
version = "0.1.0"
edition = "2021"
publish = false

[dependencies]
rand = "0.9"
rand_distr = "0.5"
petgraph = "*"
raylib = "*"
rayon = "1"
tabled = "*"
