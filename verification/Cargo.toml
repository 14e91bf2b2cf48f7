[package]
name = "stone_genome"
version = "0.1.0"
edition = "2021"
publish = false

[dependencies]
clap = { version = "4", features = ["derive"] }
memmap2 = "0.9"
rand = "0.8"
rayon = "1"
