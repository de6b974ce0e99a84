[package]
name = "ofposet"
version = "0.1.0"
edition = "2021"
publish = false

[dependencies]
rand = "0.9"
rayon = "1"
rust-igraph = "*"
serde = { version = "1", features = ["derive"] }
serde_json = "1"
