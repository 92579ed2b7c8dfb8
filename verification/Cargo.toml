[package]
name = "texsyn"
version = "0.1.0"
edition = "2021"
publish = false

[dependencies]
rand = "0.4"
rayon = "1"
clap = "2"
image = "0.25"
imageproc = "0.25"
num-traits = "0.2"
