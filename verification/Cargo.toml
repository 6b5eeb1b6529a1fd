[package]
name = "xmrtrace"
version = "0.1.0"
edition = "2021"
publish = false

[dependencies]
clap = "4"
petgraph = "0.6"
sprs = { version = "0.11", default-features = false }
