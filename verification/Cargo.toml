[package]
name = "libwebs"
version = "0.1.0"
edition = "2021"
publish = false

[dependencies]
new_mime_guess = "*"
tree_magic = "*"
rayon = "*"
lazy_static = "*"
stopwatch = "*"
fsio = "*"
