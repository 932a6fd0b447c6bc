[package]
name = "implicit"
version = "0.1.0"
edition = "2021"
publish = false

[dependencies]
rayon = "1"
num_cpus = "1"
itertools = "0.10"
vecmath = "1"
