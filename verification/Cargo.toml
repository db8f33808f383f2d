[package]
name = "tamc"
version = "0.1.0"
edition = "2021"
publish = false

[dependencies]
rand = "0.8"
rand_xoshiro = "0.6"
rayon = "1"
serde = { version = "1", features = ["derive"] }
serde_yaml = "0.9"
serde-pickle = "*"
bincode = "1"
structopt = "0.3"
