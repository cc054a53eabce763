[package]
name = "centrality"
version = "0.1.0"
edition = "2021"
publish = false

[dependencies]
petgraph = "0.6"
plotters = "0.3"
