[package]
name = "clam"
version = "0.1.0"
edition = "2021"
publish = false

[dependencies]
rand = "0.8"
rayon = "1"
serde_json = "1"
bitcode = "0.5"
ndarray = "0.15"
