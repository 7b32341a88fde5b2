[package]
name = "hdf_reader"
version = "0.1.0"
edition = "2021"
publish = false

[dependencies]
mefikit = "0.1"
ndarray = "*"
hdf5-metno = "*"
hdf5-metno-sys = "*"
indexmap = "*"
