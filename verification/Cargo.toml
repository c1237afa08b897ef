[package]
name = "riptree"
version = "0.1.0"
edition = "2021"
publish = false

[dependencies]
argparse = "0.2"
itertools = "0.12"
ordered-float = "4"
rand = "0.8"
rayon = "1"
