[package]
name = "deob"
version = "0.1.0"
edition = "2021"
publish = false

[dependencies]
clap = { version = "4", features = ["derive"] }
crossterm = "0.27"
ctrlc = "3"
rand = { version = "0.8", features = ["small_rng"] }
