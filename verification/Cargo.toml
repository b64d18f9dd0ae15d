[package]
name = "hephaistos"
version = "0.1.0"
edition = "2021"
publish = false

[dependencies]
num-traits = "0.2"
rand = "0.8"
rayon = "1"
serde_json = "1"
