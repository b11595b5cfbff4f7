[package]
name = "overlay_sim"
version = "0.1.0"
edition = "2021"
publish = false

[dependencies]
tiny-keccak = { version = "*", features = ["keccak"] }
clap = "*"
colored = "*"
ctrlc = "*"
rand = "*"
