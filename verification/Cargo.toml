[package]
name = "dinotree"
version = "0.1.0"
edition = "2021"
publish = false

[dependencies]
axgeom = "*"
compt = "*"
pdqselect = "*"
rayon = "*"
