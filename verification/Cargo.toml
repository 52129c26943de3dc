[package]
name = "dump_analyzer"
version = "0.1.0"
edition = "2021"
publish = false

[dependencies]
twoway = "*"
clap = "=3.2.25"
bincode = "=1.3.3"
serde = { version = "*", features = ["derive"] }
serde_derive = "*"
serde-big-array = "*"
walkdir = "*"
roxmltree = "*"
