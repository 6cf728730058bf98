[package]
name = "astar_maze"
version = "0.1.0"
edition = "2021"
publish = false

[dependencies]
rand = "0.8"
colored = "2"
crossterm = "0.27"
