[package]
name = "regex-to-automata"
version = "0.1.0"
edition = "2021"
publish = false

[dependencies]
regex-syntax = "=0.8.11"
petgraph = "=0.8.3"
graphviz-rust = "=0.9.9"
serde = { version = "=1.0.229", features = ["derive"] }
rand = "=0.9.5"

[dev-dependencies]
regex = "=1.13.1"
