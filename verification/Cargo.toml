[package]
name = "furnace"
version = "0.1.0"
edition = "2021"
publish = false

[dependencies]
anyhow = "1"
clap = { version = "4", features = ["derive"] }
fancy-regex = "0.14"
half = "2"
memmap2 = "0.9"
rayon = "1"
