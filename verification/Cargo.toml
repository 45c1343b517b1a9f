[package]
name = "kdtree"
version = "0.1.0"
edition = "2021"
publish = false

[dependencies]
num_cpus = "1.17.0"
rand = "0.7.3"
