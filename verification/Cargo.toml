[package]
name = "conllx"
version = "0.1.0"
edition = "2021"
publish = false

[dependencies]
petgraph = "0.4.13"
fixedbitset = "0.1"
itertools = "0.7.11"
lazy-init = "*"
