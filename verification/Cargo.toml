[package]
name = "scc050_t1"
version = "0.1.0"
edition = "2021"
publish = false

[dependencies]
petgraph = "*"
