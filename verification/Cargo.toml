[package]
name = "noodles-fpkm"
version = "0.1.0"
edition = "2021"
publish = false

[dependencies]
clap = "2"
csv = "1"
env_logger = "*"
log = "0.4"
noodles = { version = "*", features = ["gff"] }
