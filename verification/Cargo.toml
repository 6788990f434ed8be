[package]
name = "assfonts"
version = "0.1.0"
edition = "2021"
publish = false

[dependencies]
ttf-parser = "*"
allsorts = "*"
clap = { version = "4", features = ["derive"] }
serde = { version = "1", features = ["derive"] }
serde_json = "1"
walkdir = "2"
rayon = "1"
dashmap = "*"
thiserror = "*"
