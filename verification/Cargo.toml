[package]
name = "mise_config"
version = "0.1.0"
edition = "2021"
publish = false

[dependencies]
dotenvy = "0.15"
either = "1"
eyre = "0.6"
indexmap = "2"
itertools = "0.12"
once_cell = "1"
rayon = "1"
