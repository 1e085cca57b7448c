[package]
name = "spatial2d"
version = "0.1.0"
edition = "2021"
publish = false

[dependencies]
glam = "=0.34.1"
hashbrown = "=0.17.1"
itertools = "=0.15.0"
priority-queue = "=2.7.0"
rand = "0.3"
rng = "=0.1.0"
