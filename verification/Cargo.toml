[package]
name = "sortpar"
version = "0.1.0"
edition = "2021"
publish = false

[dependencies]
caseless = "*"
clap = "*"
natord = "*"
rayon = "*"
version-compare = "*"
