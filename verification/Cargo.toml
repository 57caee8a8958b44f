[package]
name = "soco"
version = "0.1.0"
edition = "2021"
publish = false

[dependencies]
nlopt = "*"
pathfinding = "=4.16.0"
thiserror = "*"
