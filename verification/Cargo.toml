[package]
name = "fdfirst"
version = "0.1.0"
edition = "2021"
publish = false

[dependencies]
rand = "0.8"
rayon = "*"
ndarray = "*"
indicatif = "*"
chrono = "*"
once_cell = "*"
hdf5-metno = "*"
