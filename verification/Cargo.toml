[package]
name = "space_game"
version = "0.1.0"
edition = "2021"
publish = false

[dependencies]
petgraph = "0.6"
indexmap = "1"
nalgebra = "0.31"
thiserror = "1"
anyhow = "1"
log = "0.4"
