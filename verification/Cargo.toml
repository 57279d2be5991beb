[package]
name = "route_stops"
version = "0.1.0"
edition = "2021"
publish = false

[dependencies]
anyhow = "*"
clap = { version = "*", features = ["derive"] }
geo = "*"
gtfs-structures = "*"
log = "*"
pretty_env_logger = "*"
