[package]
name = "nix-doc"
version = "0.6.5"
edition = "2021"
publish = false

[dependencies]
colorful = "0.2"
num_cpus = "1"
pathdiff = "0.2"
regex = "1"
rnix = "0.8"
structopt = "0.3"
walkdir = "2"
