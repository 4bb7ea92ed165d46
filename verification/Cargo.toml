[package]
name = "compact_skel_2d"
version = "0.1.0"
edition = "2021"
publish = false

[dependencies]
anyhow = "*"
clap = { version = "*", features = ["derive"] }
delaunator = "*"
image = "*"
imageproc = "*"
