[package]
name = "libfim"
version = "0.1.0"
edition = "2021"
publish = false

[dependencies]
unicode-segmentation = "1"
unicode-width = "0.1"
crossterm = "0.25"
clap = { version = "3", features = ["derive"] }
serde = { version = "1", features = ["derive"] }
bincode = "1"
