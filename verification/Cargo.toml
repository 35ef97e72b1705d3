[package]
name = "astar"
version = "0.1.0"
edition = "2021"
publish = false

[dependencies]
ansi_term = "*"
