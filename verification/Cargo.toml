[package]
name = "graph_visualizer"
version = "0.1.0"
edition = "2021"
publish = false

[dependencies]
bitvec = "*"
petgraph = "*"
visgraph = "*"
clap = { version = "*", features = ["derive"] }
anyhow = "*"
thiserror = "*"
