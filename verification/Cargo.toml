[package]
name = "counting_homomorphisms"
version = "0.1.0"
edition = "2021"
publish = false

[dependencies]
petgraph = "0.6"
itertools = "0.10"
csv = "1"
