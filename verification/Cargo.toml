[package]
name = "lsmdb"
version = "0.1.0"
edition = "2021"
publish = false

[dependencies]
bit-vec = "0.6"
chrono = "0.4"
lz4_flex = "0.11"
clap = { version = "4", features = ["derive"] }
colored = "2"
dirs = "5"
miette = "7"
